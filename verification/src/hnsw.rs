//! The approximate index: a hierarchy of navigable small worlds.
//!
//! Each vector stands on the lowest layer and, with falling probability, on the layers above;
//! on every layer it is linked to near vectors. A search descends greedily and then widens on
//! the lowest layer. Distances are single-precision numbers that a function of the caller
//! measures between two vectors.

use std::collections::HashSet;

use vstd::prelude::*;

use crate::index;
use crate::index::{BruteForceIndex, Entry, IndexV};
use crate::model::{F32Bits, NodeId};
use crate::rank;

verus! {

broadcast use vstd::std_specs::hash::group_hash_axioms;

// ---------------------------------------------------------------------------
// Distances
// ---------------------------------------------------------------------------

/// Whether a function measures any two vectors, and the same two always alike.
pub open spec fn measures<F: Fn(&Vec<F32Bits>, &Vec<F32Bits>) -> F32Bits>(f: F) -> bool {
    &&& forall|a: &Vec<F32Bits>, b: &Vec<F32Bits>| #[trigger] call_requires(f, (a, b))
    &&& forall|a: &Vec<F32Bits>, b: &Vec<F32Bits>, x: F32Bits, y: F32Bits|
        #[trigger] call_ensures(f, (a, b), x) && #[trigger] call_ensures(f, (a, b), y) ==> x == y
}

/// The distance that a function measures.
pub open spec fn measured<F: Fn(&Vec<F32Bits>, &Vec<F32Bits>) -> F32Bits>(
    f: F,
    a: Vec<F32Bits>,
    b: Vec<F32Bits>,
) -> F32Bits {
    choose|x: F32Bits| call_ensures(f, (&a, &b), x)
}

/// The place of a distance among distances: what is not a number is the farthest.
pub open spec fn far_key(bits: F32Bits) -> i64 {
    if rank::is_nan(bits) {
        0x1_0000_0000i64
    } else {
        rank::order_of(bits)
    }
}

fn farness(bits: F32Bits) -> (r: i64)
    ensures
        r == far_key(bits),
{
    let k: i64 = rank::order_key(bits);
    if k == -0x1_0000_0000i64 {
        0x1_0000_0000i64
    } else {
        k
    }
}

/// A slot with its distance from a query.
#[derive(Debug, Clone, Copy)]
pub struct Cand {
    pub dist: F32Bits,
    pub id: usize,
}

/// Whether candidates come in order: the nearest first, or the farthest first.
pub open spec fn in_order(v: Seq<Cand>, near: bool) -> bool {
    forall|i: int, j: int|
        0 <= i < j < v.len() ==> if near {
            far_key((#[trigger] v[i]).dist) <= far_key((#[trigger] v[j]).dist)
        } else {
            far_key(v[i].dist) >= far_key(v[j].dist)
        }
}

/// Whether a slot is among candidates.
pub open spec fn holds(v: Seq<Cand>, x: usize) -> bool {
    exists|i: int| 0 <= i < v.len() && (#[trigger] v[i]).id == x
}

/// Whether no slot is there twice.
pub open spec fn distinct(v: Seq<Cand>) -> bool {
    forall|i: int, j: int| 0 <= i < j < v.len() ==> (#[trigger] v[i]).id != (#[trigger] v[j]).id
}

/// Whether no candidate is farther than a place.
pub open spec fn all_within(v: Seq<Cand>, key: i64) -> bool {
    forall|i: int| 0 <= i < v.len() ==> far_key((#[trigger] v[i]).dist) <= key
}

proof fn lemma_holds_insert(v: Seq<Cand>, p: int, c: Cand)
    requires
        0 <= p <= v.len(),
    ensures
        forall|x: usize| #[trigger] holds(v.insert(p, c), x) <==> holds(v, x) || x == c.id,
{
    let w = v.insert(p, c);
    assert forall|x: usize| #[trigger] holds(w, x) <==> holds(v, x) || x == c.id by {
        if holds(w, x) {
            let i = choose|i: int| 0 <= i < w.len() && (#[trigger] w[i]).id == x;
            if i < p {
                assert(v[i].id == x);
            } else if i > p {
                assert(v[i - 1].id == x);
            }
        }
        if holds(v, x) {
            let i = choose|i: int| 0 <= i < v.len() && (#[trigger] v[i]).id == x;
            if i < p {
                assert(w[i].id == x);
            } else {
                assert(w[i + 1].id == x);
            }
        }
        if x == c.id {
            assert(w[p].id == x);
        }
    }
}

proof fn lemma_holds_drop(v: Seq<Cand>)
    requires
        v.len() > 0,
    ensures
        forall|x: usize| #[trigger] holds(v.drop_last(), x) ==> holds(v, x),
        forall|x: usize| #[trigger] holds(v, x) ==> holds(v.drop_last(), x) || x == v.last().id,
{
    let w = v.drop_last();
    assert forall|x: usize| #[trigger] holds(w, x) implies holds(v, x) by {
        let i = choose|i: int| 0 <= i < w.len() && (#[trigger] w[i]).id == x;
        assert(v[i].id == x);
    }
    assert forall|x: usize| #[trigger] holds(v, x) implies holds(w, x) || x == v.last().id by {
        let i = choose|i: int| 0 <= i < v.len() && (#[trigger] v[i]).id == x;
        if i < w.len() {
            assert(w[i].id == x);
        }
    }
}

/// Puts a candidate in its place.
fn put_in(v: &mut Vec<Cand>, c: Cand, near: bool) -> (p: usize)
    requires
        in_order(old(v)@, near),
    ensures
        p <= old(v)@.len(),
        final(v)@ == old(v)@.insert(p as int, c),
        in_order(final(v)@, near),
        forall|x: usize| #[trigger] holds(final(v)@, x) <==> holds(old(v)@, x) || x == c.id,
{
    let key: i64 = farness(c.dist);
    let n: usize = v.len();
    let mut p: usize = n;
    let ghost was = v@;
    while p > 0
        invariant_except_break
            p <= n,
        invariant
            v@ == was,
            p <= n == v@.len(),
            key == far_key(c.dist),
            in_order(was, near),
            forall|i: int|
                p <= i < n ==> if near {
                    key < far_key((#[trigger] was[i]).dist)
                } else {
                    key > far_key(was[i].dist)
                },
        ensures
            p > 0 ==> if near {
                key >= far_key(was[p - 1].dist)
            } else {
                key <= far_key(was[p - 1].dist)
            },
        decreases p,
    {
        let k: i64 = farness(v[p - 1].dist);
        if near {
            if key >= k {
                break;
            }
        } else {
            if key <= k {
                break;
            }
        }
        p -= 1;
    }
    v.insert(p, c);
    proof {
        lemma_holds_insert(was, p as int, c);
        let w = v@;
        assert forall|i: int, j: int| 0 <= i < j < w.len() implies if near {
            far_key((#[trigger] w[i]).dist) <= far_key((#[trigger] w[j]).dist)
        } else {
            far_key(w[i].dist) >= far_key(w[j].dist)
        } by {
            if j < p {
                assert(w[i] == was[i] && w[j] == was[j]);
            } else if j == p {
                assert(w[i] == was[i]);
                if i < p - 1 {
                    assert(was[i] == w[i] && was[p - 1] == w[p - 1]);
                }
            } else if i < p {
                assert(w[i] == was[i] && w[j] == was[j - 1]);
            } else if i == p {
                assert(w[j] == was[j - 1]);
            } else {
                assert(w[i] == was[i - 1] && w[j] == was[j - 1]);
            }
        }
    }
    p
}

/// Takes a candidate into the results and, where they are more than `ef`, lets the farthest go.
fn take_result(v: &mut Vec<Cand>, c: Cand, ef: usize)
    requires
        in_order(old(v)@, true),
        distinct(old(v)@),
        !holds(old(v)@, c.id),
        old(v)@.len() < usize::MAX,
    ensures
        in_order(final(v)@, true),
        distinct(final(v)@),
        final(v)@.len() == (if old(v)@.len() + 1 > ef {
            old(v)@.len()
        } else {
            old(v)@.len() + 1
        }),
        forall|i: int|
            0 <= i < final(v)@.len() ==> old(v)@.contains(#[trigger] final(v)@[i]) || final(v)@[i]
                == c,
        forall|x: usize| #[trigger] holds(final(v)@, x) ==> holds(old(v)@, x) || x == c.id,
        forall|i: int|
            0 <= i < old(v)@.len() ==> holds(final(v)@, (#[trigger] old(v)@[i]).id) || (
            final(v)@.len() >= ef && all_within(final(v)@, far_key(old(v)@[i].dist))),
        holds(final(v)@, c.id) || (final(v)@.len() >= ef && all_within(
            final(v)@,
            far_key(c.dist),
        )),
{
    let ghost was = v@;
    let p: usize = put_in(v, c, true);
    let ghost mid = v@;
    proof {
        assert(mid == was.insert(p as int, c));
        assert forall|i: int| 0 <= i < mid.len() implies was.contains(#[trigger] mid[i]) || mid[i]
            == c by {
            if i < p {
                assert(mid[i] == was[i]);
            } else if i > p {
                assert(mid[i] == was[i - 1]);
            }
        }
        assert forall|i: int| 0 <= i < was.len() implies holds(mid, (#[trigger] was[i]).id) by {
            assert(holds(was, was[i].id));
        }
        assert forall|i: int, j: int| 0 <= i < j < mid.len() implies (#[trigger] mid[i]).id != (
        #[trigger] mid[j]).id by {
            let a: int = if i < p {
                i
            } else {
                i - 1
            };
            let b: int = if j < p {
                j
            } else {
                j - 1
            };
            if i == p {
                assert(mid[j] == was[j - 1]);
                assert(holds(was, mid[j].id));
            } else if j == p {
                assert(mid[i] == was[i]);
                assert(holds(was, mid[i].id));
            } else {
                assert(mid[i] == was[a] && mid[j] == was[b]);
            }
        }
        assert(holds(mid, c.id));
    }
    if v.len() > ef {
        v.pop();
        proof {
            let w = v@;
            assert(w =~= mid.drop_last());
            lemma_holds_drop(mid);
            let last = mid.last();
            assert(all_within(w, far_key(last.dist))) by {
                assert forall|i: int| 0 <= i < w.len() implies far_key((#[trigger] w[i]).dist)
                    <= far_key(last.dist) by {
                    assert(w[i] == mid[i]);
                    assert(mid[mid.len() - 1] == last);
                }
            }
            assert forall|i: int| 0 <= i < w.len() implies was.contains(#[trigger] w[i]) || w[i]
                == c by {
                assert(w[i] == mid[i]);
            }
            assert forall|i: int, j: int| 0 <= i < j < w.len() implies (#[trigger] w[i]).id != (
            #[trigger] w[j]).id by {
                assert(w[i] == mid[i] && w[j] == mid[j]);
            }
            assert forall|i: int, j: int| 0 <= i < j < w.len() implies far_key(
                (#[trigger] w[i]).dist,
            ) <= far_key((#[trigger] w[j]).dist) by {
                assert(w[i] == mid[i] && w[j] == mid[j]);
            }
            assert forall|i: int| 0 <= i < was.len() implies holds(w, (#[trigger] was[i]).id) || (
            w.len() >= ef && all_within(w, far_key(was[i].dist))) by {
                assert(holds(mid, was[i].id));
                if !holds(w, was[i].id) {
                    assert(was[i].id == last.id);
                    assert(was.contains(last) || last == c);
                    if last == c {
                        assert(holds(was, c.id));
                    } else {
                        let k = choose|k: int| 0 <= k < was.len() && was[k] == last;
                        if k < i {
                            assert(was[k].id != was[i].id);
                        } else if i < k {
                            assert(was[i].id != was[k].id);
                        }
                    }
                }
            }
            if !holds(w, c.id) {
                assert(c.id == last.id);
                if last != c {
                    let k = choose|k: int| 0 <= k < was.len() && was[k] == last;
                    assert(holds(was, c.id));
                }
            }
        }
    }
}

// ---------------------------------------------------------------------------
// Layers
// ---------------------------------------------------------------------------

/// The links of a slot, layer by layer.
pub struct GraphNode {
    pub links: Vec<Vec<usize>>,
}

/// Whether a slot stands on a layer.
pub open spec fn stands(nodes: Seq<GraphNode>, x: int, layer: int) -> bool {
    0 <= x < nodes.len() && 0 <= layer < nodes[x].links@.len()
}

/// The links of a slot on a layer.
pub open spec fn links_of(nodes: Seq<GraphNode>, x: int, layer: int) -> Seq<usize> {
    nodes[x].links@[layer]@
}

/// Whether every link leads to a slot on the same layer.
pub open spec fn links_lead(nodes: Seq<GraphNode>) -> bool {
    forall|x: int, layer: int, y: usize|
        stands(nodes, x, layer) && #[trigger] links_of(nodes, x, layer).contains(y) ==> stands(
            nodes,
            y as int,
            layer,
        )
}

/// Whether some slot on a layer links to a slot.
pub open spec fn is_linked(nodes: Seq<GraphNode>, y: usize, layer: int) -> bool {
    exists|x: int| stands(nodes, x, layer) && #[trigger] links_of(nodes, x, layer).contains(y)
}

/// The distance of a slot from a query.
pub open spec fn dist_of<F: Fn(&Vec<F32Bits>, &Vec<F32Bits>) -> F32Bits>(
    f: F,
    q: Vec<F32Bits>,
    entries: Seq<Entry>,
    x: int,
) -> F32Bits {
    measured(f, q, entries[x].vec)
}

/// Whether every distance from a query is a number.
pub open spec fn all_numbers<F: Fn(&Vec<F32Bits>, &Vec<F32Bits>) -> F32Bits>(
    f: F,
    q: Vec<F32Bits>,
    entries: Seq<Entry>,
) -> bool {
    forall|x: int|
        0 <= x < entries.len() ==> !rank::is_nan(#[trigger] dist_of(f, q, entries, x))
}

/// Whether candidates carry their distances.
pub open spec fn well_measured<F: Fn(&Vec<F32Bits>, &Vec<F32Bits>) -> F32Bits>(
    v: Seq<Cand>,
    f: F,
    q: Vec<F32Bits>,
    entries: Seq<Entry>,
) -> bool {
    forall|i: int|
        0 <= i < v.len() ==> (#[trigger] v[i]).id < entries.len() && v[i].dist == dist_of(
            f,
            q,
            entries,
            v[i].id as int,
        )
}

/// Whether a slot is among the results, or they are `ef` and none of them is farther.
pub open spec fn dealt_with<F: Fn(&Vec<F32Bits>, &Vec<F32Bits>) -> F32Bits>(
    v: Seq<Cand>,
    f: F,
    q: Vec<F32Bits>,
    entries: Seq<Entry>,
    ef: nat,
    x: usize,
) -> bool {
    holds(v, x) || (v.len() >= ef && all_within(v, far_key(dist_of(f, q, entries, x as int))))
}

/// Whether a search of a layer is settled: neither an entry point nor anything that a result
/// links to could improve the results.
pub open spec fn settled<F: Fn(&Vec<F32Bits>, &Vec<F32Bits>) -> F32Bits>(
    v: Seq<Cand>,
    f: F,
    q: Vec<F32Bits>,
    entries: Seq<Entry>,
    nodes: Seq<GraphNode>,
    eps: Seq<usize>,
    ef: nat,
    layer: int,
) -> bool {
    &&& forall|x: usize| #[trigger] eps.contains(x) ==> dealt_with(v, f, q, entries, ef, x)
    &&& forall|i: int, y: usize|
        0 <= i < v.len() && #[trigger] links_of(nodes, v[i].id as int, layer).contains(y)
            ==> dealt_with(v, f, q, entries, ef, y)
}

/// What the search of a layer finds: slots of the layer with their distances, the nearest
/// first, each once, at most `ef` (or all entry points, where those are more), and settled
/// where every distance is a number.
pub open spec fn is_found<F: Fn(&Vec<F32Bits>, &Vec<F32Bits>) -> F32Bits>(
    v: Seq<Cand>,
    f: F,
    q: Vec<F32Bits>,
    entries: Seq<Entry>,
    nodes: Seq<GraphNode>,
    eps: Seq<usize>,
    ef: nat,
    layer: int,
) -> bool {
    &&& in_order(v, true)
    &&& distinct(v)
    &&& well_measured(v, f, q, entries)
    &&& forall|x: usize| #[trigger]
        holds(v, x) ==> stands(nodes, x as int, layer) && (eps.contains(x) || is_linked(
            nodes,
            x,
            layer,
        ))
    &&& v.len() <= ef || v.len() <= eps.len()
    &&& eps.len() > 0 ==> v.len() > 0
    &&& all_numbers(f, q, entries) ==> settled(v, f, q, entries, nodes, eps, ef, layer)
}

/// The slots below a number.
spec fn below(n: int) -> Set<usize> {
    Set::new(|x: usize| x < n)
}

proof fn lemma_below(n: int)
    requires
        0 <= n <= usize::MAX,
    ensures
        below(n).finite(),
        below(n).len() == n,
    decreases n,
{
    if n == 0 {
        assert(below(n) =~= Set::empty());
    } else {
        lemma_below(n - 1);
        assert(below(n) =~= below(n - 1).insert((n - 1) as usize));
    }
}

fn measure<F: Fn(&Vec<F32Bits>, &Vec<F32Bits>) -> F32Bits>(
    entries: &Vec<Entry>,
    q: &Vec<F32Bits>,
    x: usize,
    f: &F,
) -> (r: F32Bits)
    requires
        measures(*f),
        x < entries@.len(),
    ensures
        r == dist_of(*f, *q, entries@, x as int),
{
    let d: F32Bits = f(q, &entries[x].vec);
    assert(call_ensures(*f, (q, &entries@[x as int].vec), d));
    d
}

/// What the results of a search hold true of the slots that were seen.
spec fn tracked_results<F: Fn(&Vec<F32Bits>, &Vec<F32Bits>) -> F32Bits>(
    v: Seq<Cand>,
    seen: Set<usize>,
    f: F,
    q: Vec<F32Bits>,
    entries: Seq<Entry>,
    ef: nat,
) -> bool {
    &&& in_order(v, true)
    &&& distinct(v)
    &&& well_measured(v, f, q, entries)
    &&& forall|x: usize| #[trigger] holds(v, x) ==> seen.contains(x)
    &&& all_numbers(f, q, entries) ==> forall|x: usize| #[trigger]
        seen.contains(x) ==> dealt_with(v, f, q, entries, ef, x)
}

/// A slot that is let in among the results.
fn let_in<F: Fn(&Vec<F32Bits>, &Vec<F32Bits>) -> F32Bits>(
    v: &mut Vec<Cand>,
    c: Cand,
    ef: usize,
    entries: &Vec<Entry>,
    q: &Vec<F32Bits>,
    f: &F,
    Ghost(seen): Ghost<Set<usize>>,
)
    requires
        tracked_results(old(v)@, seen, *f, *q, entries@, ef as nat),
        !seen.contains(c.id),
        c.id < entries@.len(),
        c.dist == dist_of(*f, *q, entries@, c.id as int),
        old(v)@.len() < usize::MAX,
        old(v)@.len() < ef || rank::exceeds(old(v)@.last().dist, c.dist),
        old(v)@.len() > 0,
    ensures
        tracked_results(final(v)@, seen.insert(c.id), *f, *q, entries@, ef as nat),
        final(v)@.len() >= old(v)@.len(),
        final(v)@.len() <= ef || final(v)@.len() == old(v)@.len(),
        forall|x: usize| #[trigger] holds(final(v)@, x) ==> holds(old(v)@, x) || x == c.id,
{
    let ghost was = v@;
    assert(!holds(was, c.id));
    take_result(v, c, ef);
    proof {
        let w = v@;
        let more = seen.insert(c.id);
        assert forall|i: int| 0 <= i < w.len() implies (#[trigger] w[i]).id < entries@.len()
            && w[i].dist == dist_of(*f, *q, entries@, w[i].id as int) by {
            if w[i] != c {
                let k = choose|k: int| 0 <= k < was.len() && was[k] == w[i];
                assert(was[k] == w[i]);
            }
        }
        if all_numbers(*f, *q, entries@) {
            assert forall|x: usize| #[trigger] more.contains(x) implies dealt_with(
                w,
                *f,
                *q,
                entries@,
                ef as nat,
                x,
            ) by {
                if x != c.id {
                    assert(seen.contains(x));
                    assert(dealt_with(was, *f, *q, entries@, ef as nat, x));
                    if holds(was, x) {
                        let k = choose|k: int| 0 <= k < was.len() && (#[trigger] was[k]).id == x;
                        assert(was[k].dist == dist_of(*f, *q, entries@, x as int));
                    } else {
                        let key = far_key(dist_of(*f, *q, entries@, x as int));
                        assert(all_within(w, key)) by {
                            assert(was[was.len() - 1] == was.last());
                            assert(far_key(was.last().dist) <= key);
                            let far = was.last();
                            assert(dist_of(*f, *q, entries@, far.id as int) == far.dist);
                            assert(!rank::is_nan(far.dist));
                            assert(!rank::is_nan(dist_of(*f, *q, entries@, c.id as int)));
                            assert forall|i: int| 0 <= i < w.len() implies far_key(
                                (#[trigger] w[i]).dist,
                            ) <= key by {
                                if w[i] != c {
                                    let k = choose|k: int| 0 <= k < was.len() && was[k] == w[i];
                                    assert(far_key(was[k].dist) <= key);
                                }
                            }
                        }
                    }
                }
            }
        }
    }
}

/// Searches a layer for the `ef` slots nearest to a query, from some entry points.
fn search_layer<F: Fn(&Vec<F32Bits>, &Vec<F32Bits>) -> F32Bits>(
    entries: &Vec<Entry>,
    nodes: &Vec<GraphNode>,
    q: &Vec<F32Bits>,
    eps: &Vec<usize>,
    ef: usize,
    layer: usize,
    f: &F,
) -> (r: Vec<Cand>)
    requires
        measures(*f),
        nodes@.len() <= entries@.len(),
        links_lead(nodes@),
        eps@.no_duplicates(),
        forall|x: usize| #[trigger] eps@.contains(x) ==> stands(nodes@, x as int, layer as int),
    ensures
        is_found(r@, *f, *q, entries@, nodes@, eps@, ef as nat, layer as int),
{
    let mut seen: HashSet<usize> = HashSet::new();
    let mut queue: Vec<Cand> = Vec::new();
    let mut results: Vec<Cand> = Vec::new();
    let ghost mut done: Set<usize> = Set::empty();
    let m: usize = eps.len();
    let total: usize = nodes.len();
    for i in 0..m
        invariant
            m == eps@.len(),
            measures(*f),
            nodes@.len() <= entries@.len(),
            eps@.no_duplicates(),
            forall|x: usize| #[trigger] eps@.contains(x) ==> stands(nodes@, x as int, layer as int),
            forall|x: usize| #[trigger] seen@.contains(x) <==> eps@.take(i as int).contains(x),
            forall|x: usize| #[trigger] seen@.contains(x) <==> holds(results@, x),
            forall|x: usize| #[trigger] holds(results@, x) <==> holds(queue@, x),
            in_order(results@, true),
            in_order(queue@, false),
            distinct(results@),
            results@.len() == i,
            well_measured(results@, *f, *q, entries@),
            well_measured(queue@, *f, *q, entries@),
    {
        let x: usize = eps[i];
        assert(eps@.contains(x));
        let c = Cand { dist: measure(entries, q, x, f), id: x };
        let ghost (was_r, was_q, was_seen) = (results@, queue@, seen@);
        assert(!eps@.take(i as int).contains(x)) by {
            if eps@.take(i as int).contains(x) {
                let j = choose|j: int| 0 <= j < i && eps@.take(i as int)[j] == x;
                assert(eps@[j] == eps@[i as int]);
            }
        }
        assert(!seen@.contains(x));
        assert(!holds(was_r, x));
        seen.insert(x);
        let a: usize = put_in(&mut queue, c, false);
        let b: usize = put_in(&mut results, c, true);
        proof {
            lemma_insert_kept(was_q, a as int, c, *f, *q, entries@);
            lemma_insert_kept(was_r, b as int, c, *f, *q, entries@);
            lemma_insert_distinct(was_r, b as int, c);
            assert forall|y: usize| #[trigger] seen@.contains(y) <==> eps@.take(i + 1).contains(y) by {
                let (t, u) = (eps@.take(i as int), eps@.take(i + 1));
                if u.contains(y) {
                    let j = choose|j: int| 0 <= j < u.len() && u[j] == y;
                    if j < i {
                        assert(t[j] == y);
                        assert(was_seen.contains(y));
                    }
                }
                if was_seen.contains(y) {
                    let j = choose|j: int| 0 <= j < t.len() && t[j] == y;
                    assert(u[j] == y);
                }
                assert(u[i as int] == x);
            }
        }
    }
    assert(eps@.take(m as int) =~= eps@);
    let ghost l = layer as int;
    assert forall|x: usize| #[trigger] seen@.contains(x) implies dealt_with(
        results@,
        *f,
        *q,
        entries@,
        ef as nat,
        x,
    ) by {
        assert(holds(results@, x));
    }
    proof {
        if queue@.len() > 0 {
            assert(holds(queue@, queue@[0].id));
            assert(holds(results@, queue@[0].id));
        }
        lemma_below(total as int);
        assert(seen@.subset_of(below(nodes@.len() as int))) by {
            assert forall|x: usize| seen@.contains(x) implies below(nodes@.len() as int).contains(x) by {
                assert(eps@.contains(x));
            }
        }
        vstd::set_lib::lemma_len_subset(seen@, below(nodes@.len() as int));
    }
    while queue.len() > 0
        invariant_except_break
            forall|x: usize| #[trigger]
                holds(results@, x) ==> done.contains(x) || holds(queue@, x),
        invariant
            measures(*f),
            nodes@.len() <= entries@.len(),
            links_lead(nodes@),
            l == layer,
            total == nodes@.len(),
            m == eps@.len(),
            m > 0 ==> results@.len() > 0,
            results@.len() <= ef || results@.len() <= m,
            in_order(queue@, false),
            well_measured(queue@, *f, *q, entries@),
            tracked_results(results@, seen@, *f, *q, entries@, ef as nat),
            seen@.finite(),
            below(nodes@.len() as int).finite(),
            below(nodes@.len() as int).len() == nodes@.len(),
            seen@.subset_of(below(nodes@.len() as int)),
            forall|x: usize| #[trigger]
                seen@.contains(x) ==> stands(nodes@, x as int, l) && (eps@.contains(x) || is_linked(
                    nodes@,
                    x,
                    l,
                )),
            forall|x: usize| #[trigger] holds(queue@, x) ==> seen@.contains(x),
            forall|x: usize| #[trigger] eps@.contains(x) ==> seen@.contains(x),
            forall|x: usize, y: usize|
                done.contains(x) && #[trigger] links_of(nodes@, x as int, l).contains(y)
                    ==> seen@.contains(y),
            queue@.len() > 0 ==> results@.len() > 0,
        ensures
            all_numbers(*f, *q, entries@) ==> forall|x: usize| #[trigger]
                holds(results@, x) ==> done.contains(x),
        decreases nodes@.len() - seen@.len(), queue@.len(),
    {
        proof {
            lemma_holds_drop(queue@);
        }
        let ghost was_q = queue@;
        let ghost before_seen = seen@;
        let c: Cand = match queue.pop() {
            Some(c) => c,
            None => Cand { dist: 0, id: 0 },
        };
        assert(queue@ =~= was_q.drop_last());
        assert(c == was_q.last());
        assert(was_q[was_q.len() - 1].id == c.id);
        assert(holds(was_q, c.id));
        assert forall|i: int, j: int| 0 <= i < j < queue@.len() implies far_key(
            (#[trigger] queue@[i]).dist,
        ) >= far_key((#[trigger] queue@[j]).dist) by {
            assert(queue@[i] == was_q[i] && queue@[j] == was_q[j]);
        }
        assert forall|i: int| 0 <= i < queue@.len() implies (#[trigger] queue@[i]).id < entries@.len()
            && queue@[i].dist == dist_of(*f, *q, entries@, queue@[i].id as int) by {
            assert(queue@[i] == was_q[i]);
        }
        let far: F32Bits = results[results.len() - 1].dist;
        if results.len() >= ef && rank::greater(c.dist, far) {
            proof {
                if all_numbers(*f, *q, entries@) {
                    assert forall|x: usize| #[trigger] holds(results@, x) implies done.contains(x) by {
                        let k = choose|k: int| 0 <= k < results@.len() && (#[trigger] results@[k]).id == x;
                        assert(far_key(results@[k].dist) <= far_key(far)) by {
                            assert(results@[results@.len() - 1].dist == far);
                        }
                        assert(!rank::is_nan(dist_of(*f, *q, entries@, x as int)));
                        if holds(was_q, x) {
                            let j = choose|j: int| 0 <= j < was_q.len() && (#[trigger] was_q[j]).id == x;
                            assert(was_q[was_q.len() - 1] == c);
                            assert(far_key(was_q[j].dist) >= far_key(c.dist));
                            assert(was_q[j].dist == results@[k].dist);
                        }
                    }
                }
            }
            break;
        }
        let links = &nodes[c.id].links[layer];
        let n: usize = links.len();
        for j in 0..n
            invariant
                n == links@.len(),
                l == layer,
                total == nodes@.len(),
                m == eps@.len(),
                measures(*f),
                nodes@.len() <= entries@.len(),
                links_lead(nodes@),
                stands(nodes@, c.id as int, l),
                links@ == links_of(nodes@, c.id as int, l),
                results@.len() > 0,
                results@.len() <= ef || results@.len() <= m,
                in_order(queue@, false),
                well_measured(queue@, *f, *q, entries@),
                tracked_results(results@, seen@, *f, *q, entries@, ef as nat),
                seen@.finite(),
                before_seen.finite(),
                before_seen.subset_of(seen@),
                seen@ == before_seen ==> queue@.len() < was_q.len(),
                below(nodes@.len() as int).finite(),
                below(nodes@.len() as int).len() == nodes@.len(),
                seen@.subset_of(below(nodes@.len() as int)),
                forall|x: usize| #[trigger]
                    seen@.contains(x) ==> stands(nodes@, x as int, l) && (eps@.contains(x)
                        || is_linked(nodes@, x, l)),
                forall|x: usize| #[trigger] holds(queue@, x) ==> seen@.contains(x),
                forall|x: usize| #[trigger] eps@.contains(x) ==> seen@.contains(x),
                forall|x: usize, y: usize|
                    done.contains(x) && #[trigger] links_of(nodes@, x as int, l).contains(y)
                        ==> seen@.contains(y),
                forall|x: usize| #[trigger]
                    holds(results@, x) ==> done.contains(x) || holds(queue@, x) || x == c.id,
                forall|i: int| 0 <= i < j ==> seen@.contains(#[trigger] links@[i]),
        {
            let e: usize = links[j];
            assert(links_of(nodes@, c.id as int, l).contains(e));
            assert(is_linked(nodes@, e, l));
            assert(stands(nodes@, e as int, l));
            let ghost (was_r, q1, seen1) = (results@, queue@, seen@);
            if !seen.contains(&e) {
                seen.insert(e);
                assert(seen@ == seen1.insert(e));
                assert(seen@ != before_seen) by {
                    assert(!before_seen.contains(e));
                    assert(seen@.contains(e));
                }
                let d: F32Bits = measure(entries, q, e, f);
                let far: F32Bits = results[results.len() - 1].dist;
                let cand = Cand { dist: d, id: e };
                if results.len() < ef || rank::greater(far, d) {
                    let a: usize = put_in(&mut queue, cand, false);
                    proof {
                        lemma_insert_kept(q1, a as int, cand, *f, *q, entries@);
                        lemma_len_bound(results@, seen1, total as int);
                        assert(!seen1.contains(e) && !holds(results@, e));
                    }
                    let_in(
                        &mut results,
                        cand,
                        ef,
                        entries,
                        q,
                        f,
                        Ghost(seen1),
                    );
                } else {
                    proof {
                        lemma_turned_away(was_r, cand, seen1, *f, *q, entries@, ef as nat);
                    }
                }
                assert(seen@.subset_of(below(nodes@.len() as int))) by {
                    assert forall|x: usize| seen@.contains(x) implies below(
                        nodes@.len() as int,
                    ).contains(x) by {
                        if x != e {
                            assert(seen1.contains(x));
                        }
                    }
                }
            }
        }
        proof {
            let old_done = done;
            done = done.insert(c.id);
            assert forall|x: usize, y: usize|
                done.contains(x) && #[trigger] links_of(nodes@, x as int, l).contains(y) implies
                seen@.contains(y) by {
                if x == c.id {
                    let i = choose|i: int| 0 <= i < links@.len() && links@[i] == y;
                    assert(seen@.contains(links@[i]));
                }
            }
            vstd::set_lib::lemma_len_subset(seen@, below(nodes@.len() as int));
            vstd::set_lib::lemma_len_subset(before_seen, seen@);
            if seen@.len() == before_seen.len() {
                vstd::set_lib::lemma_subset_equality(before_seen, seen@);
            }
        }
    }
    proof {
        if all_numbers(*f, *q, entries@) {
            assert forall|i: int, y: usize|
                0 <= i < results@.len() && #[trigger] links_of(
                    nodes@,
                    results@[i].id as int,
                    l,
                ).contains(y) implies dealt_with(results@, *f, *q, entries@, ef as nat, y) by {
                assert(holds(results@, results@[i].id));
                assert(done.contains(results@[i].id));
                assert(seen@.contains(y));
            }
        }
    }
    results
}

proof fn lemma_insert_kept<F: Fn(&Vec<F32Bits>, &Vec<F32Bits>) -> F32Bits>(
    v: Seq<Cand>,
    p: int,
    c: Cand,
    f: F,
    q: Vec<F32Bits>,
    entries: Seq<Entry>,
)
    requires
        0 <= p <= v.len(),
        well_measured(v, f, q, entries),
        c.id < entries.len(),
        c.dist == dist_of(f, q, entries, c.id as int),
    ensures
        well_measured(v.insert(p, c), f, q, entries),
{
    let w = v.insert(p, c);
    assert forall|i: int| 0 <= i < w.len() implies (#[trigger] w[i]).id < entries.len() && w[i].dist
        == dist_of(f, q, entries, w[i].id as int) by {
        if i < p {
            assert(w[i] == v[i]);
        } else if i > p {
            assert(w[i] == v[i - 1]);
        }
    }
}

proof fn lemma_insert_distinct(v: Seq<Cand>, p: int, c: Cand)
    requires
        0 <= p <= v.len(),
        distinct(v),
        !holds(v, c.id),
    ensures
        distinct(v.insert(p, c)),
{
    let w = v.insert(p, c);
    assert forall|i: int, j: int| 0 <= i < j < w.len() implies (#[trigger] w[i]).id != (
    #[trigger] w[j]).id by {
        let a: int = if i < p {
            i
        } else {
            i - 1
        };
        let b: int = if j < p {
            j
        } else {
            j - 1
        };
        if i == p {
            assert(w[j] == v[j - 1]);
            assert(holds(v, w[j].id));
        } else if j == p {
            assert(w[i] == v[i]);
            assert(holds(v, w[i].id));
        } else {
            assert(w[i] == v[a] && w[j] == v[b]);
        }
    }
}

/// Distinct slots below a number are not more than it.
proof fn lemma_len_bound(v: Seq<Cand>, seen: Set<usize>, n: int)
    requires
        distinct(v),
        forall|x: usize| #[trigger] holds(v, x) ==> seen.contains(x),
        seen.subset_of(below(n)),
        0 <= n <= usize::MAX,
    ensures
        v.len() <= n,
        v.len() < n || forall|x: usize| x < n ==> holds(v, x),
{
    let ids = v.map_values(|c: Cand| c.id);
    assert(ids.no_duplicates()) by {
        assert forall|i: int, j: int| 0 <= i < j < ids.len() implies ids[i] != ids[j] by {
            assert(v[i].id != v[j].id);
        }
    }
    ids.unique_seq_to_set();
    lemma_below(n);
    assert(ids.to_set().subset_of(below(n))) by {
        assert forall|x: usize| ids.to_set().contains(x) implies below(n).contains(x) by {
            let i = choose|i: int| 0 <= i < ids.len() && ids[i] == x;
            assert(v[i].id == x);
            assert(holds(v, x));
            assert(seen.contains(x));
        }
    }
    vstd::set_lib::lemma_len_subset(ids.to_set(), below(n));
    if v.len() == n {
        vstd::set_lib::lemma_subset_equality(ids.to_set(), below(n));
        assert forall|x: usize| x < n implies holds(v, x) by {
            assert(below(n).contains(x));
            assert(ids.to_set().contains(x));
            let i = choose|i: int| 0 <= i < ids.len() && ids[i] == x;
            assert(v[i].id == x);
        }
    }
}

/// A slot that is not let in is dealt with.
proof fn lemma_turned_away<F: Fn(&Vec<F32Bits>, &Vec<F32Bits>) -> F32Bits>(
    v: Seq<Cand>,
    c: Cand,
    seen: Set<usize>,
    f: F,
    q: Vec<F32Bits>,
    entries: Seq<Entry>,
    ef: nat,
)
    requires
        tracked_results(v, seen, f, q, entries, ef),
        c.id < entries.len(),
        c.dist == dist_of(f, q, entries, c.id as int),
        v.len() > 0,
        v.len() >= ef,
        !rank::exceeds(v.last().dist, c.dist),
    ensures
        tracked_results(v, seen.insert(c.id), f, q, entries, ef),
{
    if all_numbers(f, q, entries) {
        let far = v.last();
        assert(v[v.len() - 1] == far);
        assert(!rank::is_nan(dist_of(f, q, entries, far.id as int)));
        assert(!rank::is_nan(dist_of(f, q, entries, c.id as int)));
        assert(all_within(v, far_key(c.dist))) by {
            assert forall|i: int| 0 <= i < v.len() implies far_key((#[trigger] v[i]).dist)
                <= far_key(c.dist) by {
                if i < v.len() - 1 {
                    assert(far_key(v[i].dist) <= far_key(v[v.len() - 1].dist));
                }
            }
        }
        assert forall|x: usize| #[trigger] seen.insert(c.id).contains(x) implies dealt_with(
            v,
            f,
            q,
            entries,
            ef,
            x,
        ) by {
            if x != c.id {
                assert(seen.contains(x));
            }
        }
    }
}

// ---------------------------------------------------------------------------
// Linking
// ---------------------------------------------------------------------------

/// The tunables of the index.
#[derive(Debug, Clone, Copy)]
pub struct HnswConfig {
    /// The most links of a slot on a layer above the lowest.
    pub m: usize,
    /// The most links of a slot on the lowest layer.
    pub m0: usize,
    /// How wide an insertion searches.
    pub ef_construction: usize,
    /// How wide a query searches at least.
    pub ef_search: usize,
    /// Where the draws of levels start.
    pub seed: u64,
}

/// The usual tunables.
pub open spec fn usual_config() -> HnswConfig {
    HnswConfig {
        m: 16,
        m0: 32,
        ef_construction: 200,
        ef_search: 128,
        seed: 0x243F_6A88_85A3_08D3,
    }
}

/// The most links of a slot on a layer.
pub open spec fn cap_of(cfg: HnswConfig, layer: int) -> usize {
    if layer == 0 {
        cfg.m0
    } else {
        cfg.m
    }
}

/// Whether every link leads to another slot on the same layer, and no slot has too many.
pub open spec fn net_ok(nodes: Seq<GraphNode>, cfg: HnswConfig) -> bool {
    &&& links_lead(nodes)
    &&& forall|x: int, layer: int|
        stands(nodes, x, layer) ==> (#[trigger] links_of(nodes, x, layer)).len() <= cap_of(cfg, layer)
    &&& forall|x: int, layer: int, y: usize|
        stands(nodes, x, layer) && #[trigger] links_of(nodes, x, layer).contains(y) ==> y != x
}

/// Whether two nets have the same slots on the same layers.
pub open spec fn same_slots(a: Seq<GraphNode>, b: Seq<GraphNode>) -> bool {
    &&& a.len() == b.len()
    &&& forall|x: int| 0 <= x < a.len() ==> (#[trigger] a[x]).links@.len() == b[x].links@.len()
}

/// Whether two nets differ at most in the links of one slot on one layer.
spec fn differ_at(a: Seq<GraphNode>, b: Seq<GraphNode>, id: int, layer: int) -> bool {
    &&& same_slots(a, b)
    &&& forall|x: int, l: int|
        stands(a, x, l) && !(x == id && l == layer) ==> #[trigger] links_of(b, x, l) == links_of(
            a,
            x,
            l,
        )
}

fn set_links(nodes: &mut Vec<GraphNode>, id: usize, layer: usize, links: Vec<usize>)
    requires
        stands(old(nodes)@, id as int, layer as int),
    ensures
        differ_at(old(nodes)@, final(nodes)@, id as int, layer as int),
        links_of(final(nodes)@, id as int, layer as int) == links@,
{
    let ghost was = nodes@;
    let ghost row = nodes@[id as int].links@;
    nodes[id].links[layer] = links;
    assert(nodes@[id as int].links@ == row.update(layer as int, links));
    assert forall|x: int| 0 <= x < was.len() implies (#[trigger] was[x]).links@.len()
        == nodes@[x].links@.len() by {
        if x != id {
            assert(nodes@[x] == was[x]);
        }
    }
    assert forall|x: int, l: int| stands(was, x, l) && !(x == id && l == layer) implies
        #[trigger] links_of(nodes@, x, l) == links_of(was, x, l) by {
        if x != id {
            assert(nodes@[x] == was[x]);
        } else {
            assert(nodes@[x].links@[l] == row[l]);
        }
    }
}

/// What is kept of links: all of them where they are not too many; else so many of the nearest.
pub open spec fn is_pruned<F: Fn(&Vec<F32Bits>, &Vec<F32Bits>) -> F32Bits>(
    kept: Seq<usize>,
    all: Seq<usize>,
    cap: nat,
    f: F,
    entries: Seq<Entry>,
    id: int,
) -> bool {
    if all.len() <= cap {
        kept == all
    } else {
        &&& kept.len() == cap
        &&& forall|y: usize| #[trigger] kept.contains(y) ==> all.contains(y)
        &&& forall|y: usize, z: usize|
            #[trigger] all.contains(y) && !kept.contains(y) && #[trigger] kept.contains(z)
                ==> far_key(measured(f, entries[id].vec, entries[z as int].vec)) <= far_key(
                measured(f, entries[id].vec, entries[y as int].vec),
            )
    }
}

/// Keeps the nearest of some links of a slot.
fn prune<F: Fn(&Vec<F32Bits>, &Vec<F32Bits>) -> F32Bits>(
    entries: &Vec<Entry>,
    id: usize,
    links: Vec<usize>,
    cap: usize,
    f: &F,
) -> (r: Vec<usize>)
    requires
        measures(*f),
        id < entries@.len(),
        forall|y: usize| #[trigger] links@.contains(y) ==> y < entries@.len(),
    ensures
        is_pruned(r@, links@, cap as nat, *f, entries@, id as int),
        r@.len() <= cap,
        forall|y: usize| #[trigger] r@.contains(y) ==> links@.contains(y),
{
    let n: usize = links.len();
    if n <= cap {
        return links;
    }
    let q = &entries[id].vec;
    let mut cands: Vec<Cand> = Vec::new();
    for i in 0..n
        invariant
            n == links@.len(),
            measures(*f),
            forall|y: usize| #[trigger] links@.contains(y) ==> y < entries@.len(),
            cands@.len() == i,
            in_order(cands@, true),
            well_measured(cands@, *f, *q, entries@),
            forall|y: usize| #[trigger] holds(cands@, y) <==> links@.take(i as int).contains(y),
    {
        let y: usize = links[i];
        assert(links@.contains(y));
        let c = Cand { dist: measure(entries, q, y, f), id: y };
        let ghost was = cands@;
        let p: usize = put_in(&mut cands, c, true);
        proof {
            lemma_insert_kept(was, p as int, c, *f, *q, entries@);
            let (t, u) = (links@.take(i as int), links@.take(i + 1));
            assert forall|z: usize| #[trigger] holds(cands@, z) <==> u.contains(z) by {
                if u.contains(z) {
                    let j = choose|j: int| 0 <= j < u.len() && u[j] == z;
                    if j < i {
                        assert(t[j] == z);
                    }
                }
                if holds(was, z) {
                    let j = choose|j: int| 0 <= j < t.len() && t[j] == z;
                    assert(u[j] == z);
                }
                assert(u[i as int] == y);
            }
        }
    }
    assert(links@.take(n as int) =~= links@);
    let mut out: Vec<usize> = Vec::new();
    for i in 0..cap
        invariant
            cap < cands@.len(),
            out@.len() == i,
            forall|j: int| 0 <= j < i ==> #[trigger] out@[j] == cands@[j].id,
    {
        out.push(cands[i].id);
    }
    proof {
        assert forall|y: usize| #[trigger] out@.contains(y) implies links@.contains(y) by {
            let j = choose|j: int| 0 <= j < out@.len() && out@[j] == y;
            assert(cands@[j].id == y);
            assert(holds(cands@, y));
        }
        assert forall|y: usize, z: usize|
            #[trigger] links@.contains(y) && !out@.contains(y) && #[trigger] out@.contains(z) implies
            far_key(measured(*f, entries@[id as int].vec, entries@[z as int].vec)) <= far_key(
            measured(*f, entries@[id as int].vec, entries@[y as int].vec),
        ) by {
            assert(holds(cands@, y));
            let k = choose|k: int| 0 <= k < cands@.len() && (#[trigger] cands@[k]).id == y;
            let j = choose|j: int| 0 <= j < out@.len() && out@[j] == z;
            if k < cap {
                assert(out@[k] == y);
            }
            assert(cands@[j].id == z);
            assert(cands@[j].dist == dist_of(*f, *q, entries@, z as int));
            assert(cands@[k].dist == dist_of(*f, *q, entries@, y as int));
            assert(far_key(cands@[j].dist) <= far_key(cands@[k].dist));
        }
    }
    out
}

/// Copies links.
fn copy_links(v: &Vec<usize>) -> (r: Vec<usize>)
    ensures
        r@ == v@,
{
    let mut out: Vec<usize> = Vec::new();
    let n: usize = v.len();
    for i in 0..n
        invariant
            n == v@.len(),
            out@ == v@.take(i as int),
    {
        out.push(v[i]);
        assert(out@ =~= v@.take(i + 1));
    }
    assert(v@.take(n as int) =~= v@);
    out
}

/// Whether no slot links to a slot on the layers below a number.
spec fn fresh_below(nodes: Seq<GraphNode>, id: usize, k: int) -> bool {
    forall|layer: int| 0 <= layer < k ==> !(#[trigger] is_linked(nodes, id, layer))
}

proof fn lemma_fresh(a: Seq<GraphNode>, b: Seq<GraphNode>, id: usize, x: int, layer: int)
    requires
        fresh_below(a, id, layer),
        differ_at(a, b, x, layer),
    ensures
        fresh_below(b, id, layer),
{
    assert forall|l: int| 0 <= l < layer implies !(#[trigger] is_linked(b, id, l)) by {
        if is_linked(b, id, l) {
            let y = choose|y: int| stands(b, y, l) && #[trigger] links_of(b, y, l).contains(id);
            assert(stands(a, y, l));
            assert(links_of(a, y, l) == links_of(b, y, l));
            assert(is_linked(a, id, l));
        }
    }
}

proof fn lemma_net_after(a: Seq<GraphNode>, b: Seq<GraphNode>, x: int, layer: int, cfg: HnswConfig)
    requires
        net_ok(a, cfg),
        differ_at(a, b, x, layer),
        stands(a, x, layer),
        links_of(b, x, layer).len() <= cap_of(cfg, layer),
        forall|y: usize| #[trigger]
            links_of(b, x, layer).contains(y) ==> y != x && stands(a, y as int, layer),
    ensures
        net_ok(b, cfg),
{
    assert forall|z: int, l: int, y: usize|
        stands(b, z, l) && #[trigger] links_of(b, z, l).contains(y) implies stands(b, y as int, l) by {
        assert(stands(a, z, l));
        if z == x && l == layer {
            assert(stands(a, y as int, l));
        } else {
            assert(links_of(a, z, l) == links_of(b, z, l));
            assert(links_of(a, z, l).contains(y));
        }
        assert(a[y as int].links@.len() == b[y as int].links@.len());
    }
    assert forall|z: int, l: int| stands(b, z, l) implies (#[trigger] links_of(b, z, l)).len()
        <= cap_of(cfg, l) by {
        assert(stands(a, z, l));
        if !(z == x && l == layer) {
            assert(links_of(a, z, l) == links_of(b, z, l));
        }
    }
    assert forall|z: int, l: int, y: usize|
        stands(b, z, l) && #[trigger] links_of(b, z, l).contains(y) implies y != z by {
        assert(stands(a, z, l));
        if !(z == x && l == layer) {
            assert(links_of(a, z, l) == links_of(b, z, l));
            assert(links_of(a, z, l).contains(y));
        }
    }
}

/// What linking a slot with others on a layer makes of a net: the slot links to them, each of
/// them links to it as far as it still belongs to the nearest, and nothing else changes.
pub open spec fn connected<F: Fn(&Vec<F32Bits>, &Vec<F32Bits>) -> F32Bits>(
    f: F,
    entries: Seq<Entry>,
    cap: nat,
    a: Seq<GraphNode>,
    b: Seq<GraphNode>,
    id: usize,
    layer: int,
    chosen: Seq<usize>,
) -> bool {
    &&& same_slots(a, b)
    &&& links_of(b, id as int, layer) == chosen
    &&& forall|y: usize| #[trigger]
        chosen.contains(y) ==> is_pruned(
            links_of(b, y as int, layer),
            links_of(a, y as int, layer).push(id),
            cap,
            f,
            entries,
            y as int,
        )
    &&& forall|x: usize, l: int|
        stands(a, x as int, l) && !(l == layer && (x == id || chosen.contains(x)))
            ==> #[trigger] links_of(b, x as int, l) == links_of(a, x as int, l)
}

/// Links a slot with others on a layer, both ways.
fn connect<F: Fn(&Vec<F32Bits>, &Vec<F32Bits>) -> F32Bits>(
    entries: &Vec<Entry>,
    nodes: &mut Vec<GraphNode>,
    id: usize,
    layer: usize,
    chosen: Vec<usize>,
    cfg: HnswConfig,
    cap: usize,
    f: &F,
)
    requires
        measures(*f),
        old(nodes)@.len() <= entries@.len(),
        net_ok(old(nodes)@, cfg),
        cap == cap_of(cfg, layer as int),
        stands(old(nodes)@, id as int, layer as int),
        chosen@.len() <= cap,
        chosen@.no_duplicates(),
        forall|y: usize| #[trigger]
            chosen@.contains(y) ==> y != id && stands(old(nodes)@, y as int, layer as int),
        fresh_below(old(nodes)@, id, layer as int),
    ensures
        same_slots(old(nodes)@, final(nodes)@),
        net_ok(final(nodes)@, cfg),
        fresh_below(final(nodes)@, id, layer as int),
        connected(*f, entries@, cap as nat, old(nodes)@, final(nodes)@, id, layer as int, chosen@),
{
    let n: usize = chosen.len();
    let ghost was = nodes@;
    let total: usize = nodes.len();
    set_links(nodes, id, layer, copy_links(&chosen));
    proof {
        lemma_net_after(was, nodes@, id as int, layer as int, cfg);
        lemma_fresh(was, nodes@, id, id as int, layer as int);
        assert forall|j: int| 0 <= j < n implies links_of(
            nodes@,
            (#[trigger] chosen@[j]) as int,
            layer as int,
        ) == links_of(was, chosen@[j] as int, layer as int) by {
            assert(chosen@.contains(chosen@[j]));
            assert(stands(was, chosen@[j] as int, layer as int));
        }
    }
    for i in 0..n
        invariant
            n == chosen@.len(),
            total == nodes@.len() == was.len(),
            measures(*f),
            nodes@.len() <= entries@.len(),
            cap == cap_of(cfg, layer as int),
            same_slots(was, nodes@),
            net_ok(nodes@, cfg),
            stands(nodes@, id as int, layer as int),
            fresh_below(nodes@, id, layer as int),
            links_of(nodes@, id as int, layer as int) == chosen@,
            chosen@.no_duplicates(),
            forall|y: usize| #[trigger]
                chosen@.contains(y) ==> y != id && stands(nodes@, y as int, layer as int),
            forall|j: int|
                0 <= j < i ==> is_pruned(
                    links_of(nodes@, (#[trigger] chosen@[j]) as int, layer as int),
                    links_of(was, chosen@[j] as int, layer as int).push(id),
                    cap as nat,
                    *f,
                    entries@,
                    chosen@[j] as int,
                ),
            forall|j: int|
                i <= j < n ==> links_of(nodes@, (#[trigger] chosen@[j]) as int, layer as int)
                    == links_of(was, chosen@[j] as int, layer as int),
            forall|x: usize, l: int|
                stands(was, x as int, l) && !(l == layer && (x == id || chosen@.contains(x)))
                    ==> #[trigger] links_of(nodes@, x as int, l) == links_of(was, x as int, l),
    {
        let nb: usize = chosen[i];
        assert(chosen@.contains(nb));
        let ghost before = nodes@;
        let mut links = copy_links(&nodes[nb].links[layer]);
        links.push(id);
        assert forall|y: usize| #[trigger] links@.contains(y) implies y != nb && stands(
            before,
            y as int,
            layer as int,
        ) by {
            let ls = links_of(before, nb as int, layer as int);
            let j = choose|j: int| 0 <= j < links@.len() && links@[j] == y;
            if j < ls.len() {
                assert(ls[j] == y);
                assert(ls.contains(y));
            }
        }
        let kept = prune(entries, nb, links, cap, f);
        set_links(nodes, nb, layer, kept);
        proof {
            assert(before[nb as int].links@.len() == was[nb as int].links@.len());
            assert forall|j: int| 0 <= j < n && j != i implies links_of(
                nodes@,
                (#[trigger] chosen@[j]) as int,
                layer as int,
            ) == links_of(before, chosen@[j] as int, layer as int) by {
                assert(chosen@.contains(chosen@[j]));
                assert(chosen@[j] != nb);
                assert(stands(before, chosen@[j] as int, layer as int));
            }
            assert forall|x: usize, l: int|
                stands(was, x as int, l) && !(l == layer && (x == id || chosen@.contains(x))) implies
                #[trigger] links_of(nodes@, x as int, l) == links_of(was, x as int, l) by {
                assert(was[x as int].links@.len() == before[x as int].links@.len());
                assert(stands(before, x as int, l));
                assert(links_of(before, x as int, l) == links_of(was, x as int, l));
            }
            lemma_net_after(before, nodes@, nb as int, layer as int, cfg);
            lemma_fresh(before, nodes@, id, nb as int, layer as int);
            assert(before[id as int].links@.len() == nodes@[id as int].links@.len());
            assert(links_of(nodes@, id as int, layer as int) == links_of(
                before,
                id as int,
                layer as int,
            ));
            assert forall|y: usize| #[trigger] chosen@.contains(y) implies y != id && stands(
                nodes@,
                y as int,
                layer as int,
            ) by {
                assert(before[y as int].links@.len() == nodes@[y as int].links@.len());
            }
            assert forall|x: int| 0 <= x < was.len() implies (#[trigger] was[x]).links@.len()
                == nodes@[x].links@.len() by {
                assert(before[x].links@.len() == nodes@[x].links@.len());
            }
        }
    }
    assert forall|y: usize| #[trigger] chosen@.contains(y) implies is_pruned(
        links_of(nodes@, y as int, layer as int),
        links_of(was, y as int, layer as int).push(id),
        cap as nat,
        *f,
        entries@,
        y as int,
    ) by {
        let j = choose|j: int| 0 <= j < chosen@.len() && chosen@[j] == y;
        assert(chosen@[j] == y);
    }
}

// ---------------------------------------------------------------------------
// Draws
// ---------------------------------------------------------------------------

/// The state of the generator after a draw.
pub open spec fn next_state(state: u64) -> u64 {
    state.wrapping_add(0x9E37_79B9_7F4A_7C15)
}

/// What the generator makes of a state.
pub open spec fn scrambled(state: u64) -> u64 {
    let a = (state ^ (state >> 30)).wrapping_mul(0xBF58_476D_1CE4_E5B9);
    let b = (a ^ (a >> 27)).wrapping_mul(0x94D0_49BB_1331_11EB);
    b ^ (b >> 31)
}

/// Draws a number: the same ones in the same order from the same state.
pub fn splitmix64(state: &mut u64) -> (r: u64)
    ensures
        *final(state) == next_state(*old(state)),
        r == scrambled(*final(state)),
{
    *state = (*state).wrapping_add(0x9E37_79B9_7F4A_7C15);
    let s: u64 = *state;
    let a: u64 = (s ^ (s >> 30)).wrapping_mul(0xBF58_476D_1CE4_E5B9);
    let b: u64 = (a ^ (a >> 27)).wrapping_mul(0x94D0_49BB_1331_11EB);
    b ^ (b >> 31)
}

/// Whether a function gives a level for every draw.
pub open spec fn gives_levels<G: Fn(u64) -> usize>(g: G) -> bool {
    &&& forall|x: u64| #[trigger] call_requires(g, (x,))
    &&& forall|x: u64, level: usize| #[trigger] call_ensures(g, (x,), level) ==> level < usize::MAX
}

// ---------------------------------------------------------------------------
// The index
// ---------------------------------------------------------------------------

/// The approximate index. It holds its vectors as the exact one does, and the links beside
/// them, slot by slot.
pub struct HnswIndex {
    cfg: HnswConfig,
    base: BruteForceIndex,
    nodes: Vec<GraphNode>,
    /// The slot where a search starts: one on the top layer.
    entry: Option<usize>,
    top_layer: usize,
    rng: u64,
}

impl View for HnswIndex {
    type V = IndexV;

    closed spec fn view(&self) -> IndexV {
        self.base@
    }
}

/// Whether two numbers are equal: as bits, but for the sign of zero, and never where either is
/// not a number.
pub open spec fn equal_numbers(a: F32Bits, b: F32Bits) -> bool {
    !rank::is_nan(a) && !rank::is_nan(b) && rank::order_of(a) == rank::order_of(b)
}

/// Whether two vectors are equal number by number.
pub open spec fn equal_vectors(a: Seq<F32Bits>, b: Seq<F32Bits>) -> bool {
    &&& a.len() == b.len()
    &&& forall|i: int| 0 <= i < a.len() ==> equal_numbers(#[trigger] a[i], b[i])
}

fn same_vector(a: &Vec<F32Bits>, b: &Vec<F32Bits>) -> (r: bool)
    ensures
        r == equal_vectors(a@, b@),
{
    if a.len() != b.len() {
        return false;
    }
    let n: usize = a.len();
    for i in 0..n
        invariant
            n == a@.len() == b@.len(),
            forall|j: int| 0 <= j < i ==> equal_numbers(#[trigger] a@[j], b@[j]),
    {
        let (x, y): (i64, i64) = (rank::order_key(a[i]), rank::order_key(b[i]));
        if x != y || x == -0x1_0000_0000i64 {
            assert(!equal_numbers(a@[i as int], b@[i as int]));
            return false;
        }
    }
    true
}

/// What the index holds after a vector: as the exact one, but that an equal vector changes
/// nothing.
pub open spec fn after_upsert(ix: IndexV, id: NodeId, vec: Seq<F32Bits>) -> IndexV {
    if ix.ids.contains(id) && equal_vectors(ix.vecs[id], vec) {
        ix
    } else {
        index::with_vector(ix, id, vec)
    }
}

/// The greater of two widths.
pub open spec fn wider(a: usize, b: usize) -> nat {
    if a < b {
        b as nat
    } else {
        a as nat
    }
}

/// The first `k` candidates, or all where there are fewer.
pub open spec fn nearest(found: Seq<Cand>, k: int) -> Seq<Cand> {
    if 0 <= k < found.len() {
        found.take(k)
    } else {
        found
    }
}

/// The slots of candidates.
pub open spec fn slots_of(found: Seq<Cand>) -> Seq<usize> {
    found.map_values(|c: Cand| c.id)
}

/// The hits of candidates: their nodes and distances.
pub open spec fn hits_of(found: Seq<Cand>, entries: Seq<Entry>) -> Seq<(NodeId, F32Bits)> {
    found.map_values(|c: Cand| (entries[c.id as int].id, c.dist))
}

/// Whether a greedy descent from a slot leads to another: on each layer from one down to above
/// another, to the nearest slot that a search finds.
pub open spec fn descended<F: Fn(&Vec<F32Bits>, &Vec<F32Bits>) -> F32Bits>(
    f: F,
    q: Vec<F32Bits>,
    entries: Seq<Entry>,
    nodes: Seq<GraphNode>,
    cur: usize,
    from: int,
    to: int,
    r: usize,
) -> bool
    decreases from - to,
{
    if from <= to {
        r == cur
    } else {
        stands(nodes, cur as int, from) && exists|found: Seq<Cand>| #[trigger]
            is_found(found, f, q, entries, nodes, seq![cur], 1, from) && found.len() > 0
                && descended(f, q, entries, nodes, found[0].id, from - 1, to, r)
    }
}

/// Whether linking a slot on the layers below one, from entry points on the highest of them,
/// makes one net of another: on each layer the slot is linked with the nearest that a search
/// finds, and all that it finds are the entry points of the layer below.
pub open spec fn linked_down<F: Fn(&Vec<F32Bits>, &Vec<F32Bits>) -> F32Bits>(
    f: F,
    entries: Seq<Entry>,
    cfg: HnswConfig,
    id: usize,
    a: Seq<GraphNode>,
    eps: Seq<usize>,
    layers: int,
    b: Seq<GraphNode>,
) -> bool
    decreases layers,
{
    if layers <= 0 {
        a == b
    } else {
        let layer = layers - 1;
        &&& net_ok(a, cfg)
        &&& forall|x: usize| #[trigger] eps.contains(x) ==> stands(a, x as int, layer)
        &&& exists|found: Seq<Cand>, mid: Seq<GraphNode>| #[trigger]
            is_found(
                found,
                f,
                entries[id as int].vec,
                entries,
                a,
                eps,
                cfg.ef_construction as nat,
                layer,
            ) && #[trigger] connected(
                f,
                entries,
                cap_of(cfg, layer) as nat,
                a,
                mid,
                id,
                layer,
                slots_of(nearest(found, cap_of(cfg, layer) as int)),
            ) && linked_down(f, entries, cfg, id, mid, slots_of(found), layer, b)
    }
}

/// A net, where its searches start, and the state of the generator.
pub struct NetV {
    pub nodes: Seq<GraphNode>,
    pub entry: Option<usize>,
    pub top: usize,
    pub state: u64,
}

/// Whether a net is another with one more slot, which stands on the layers up to a level and
/// has no links.
pub open spec fn grown(a: Seq<GraphNode>, b: Seq<GraphNode>, level: usize) -> bool {
    &&& b.len() == a.len() + 1
    &&& forall|x: int| 0 <= x < a.len() ==> #[trigger] b[x] == a[x]
    &&& b.last().links@.len() == level + 1
    &&& forall|l: int| 0 <= l <= level ==> (#[trigger] b.last().links@[l])@.len() == 0
}

/// Whether inserting the next slot at a level makes one net of another: a descent to the level,
/// links on it and every layer below, and a new start where the slot is above all others.
pub open spec fn placed_at<F: Fn(&Vec<F32Bits>, &Vec<F32Bits>) -> F32Bits>(
    f: F,
    entries: Seq<Entry>,
    cfg: HnswConfig,
    a: NetV,
    b: NetV,
    level: usize,
    wide: Seq<GraphNode>,
    first: usize,
) -> bool {
    let id = a.nodes.len() as usize;
    &&& grown(a.nodes, wide, level)
    &&& match a.entry {
        None => b.nodes == wide && b.entry == Some(id) && b.top == level,
        Some(e) => {
            &&& net_ok(wide, cfg)
            &&& descended(
                f,
                entries[id as int].vec,
                entries,
                wide,
                e,
                a.top as int,
                level as int,
                first,
            )
            &&& linked_down(
                f,
                entries,
                cfg,
                id,
                wide,
                seq![first],
                if a.top < level {
                    a.top + 1
                } else {
                    level + 1
                },
                b.nodes,
            )
            &&& b.entry == if level > a.top {
                Some(id)
            } else {
                a.entry
            }
            &&& b.top == if level > a.top {
                level
            } else {
                a.top
            }
        },
    }
}

/// Whether inserting the next slot makes one net of another; its level comes of the next draw.
pub open spec fn joined<
    G: Fn(u64) -> usize,
    F: Fn(&Vec<F32Bits>, &Vec<F32Bits>) -> F32Bits,
>(g: G, f: F, entries: Seq<Entry>, cfg: HnswConfig, a: NetV, b: NetV) -> bool {
    &&& b.state == next_state(a.state)
    &&& exists|level: usize, wide: Seq<GraphNode>, first: usize|
        call_ensures(g, (scrambled(b.state) >> 11,), level) && #[trigger] placed_at(
            f,
            entries,
            cfg,
            a,
            b,
            level,
            wide,
            first,
        )
}

/// Whether a net comes of inserting the first `n` entries, in their order, into an empty one.
pub open spec fn built<
    G: Fn(u64) -> usize,
    F: Fn(&Vec<F32Bits>, &Vec<F32Bits>) -> F32Bits,
>(g: G, f: F, entries: Seq<Entry>, cfg: HnswConfig, n: nat, b: NetV) -> bool
    decreases n,
{
    if n == 0 {
        b.nodes.len() == 0 && b.entry is None && b.top == 0 && b.state == cfg.seed
    } else {
        exists|a: NetV|
            a.nodes.len() == n - 1 && #[trigger] joined(g, f, entries, cfg, a, b) && built(
                g,
                f,
                entries,
                cfg,
                (n - 1) as nat,
                a,
            )
    }
}

fn empty_layers(n: usize) -> (r: Vec<Vec<usize>>)
    ensures
        r@.len() == n,
        forall|i: int| 0 <= i < n ==> (#[trigger] r@[i])@.len() == 0,
{
    let mut out: Vec<Vec<usize>> = Vec::new();
    for i in 0..n
        invariant
            out@.len() == i,
            forall|j: int| 0 <= j < i ==> (#[trigger] out@[j])@.len() == 0,
    {
        out.push(Vec::new());
    }
    out
}

/// Descends greedily from a slot on one layer to a slot on a lower one.
fn descend<F: Fn(&Vec<F32Bits>, &Vec<F32Bits>) -> F32Bits>(
    entries: &Vec<Entry>,
    nodes: &Vec<GraphNode>,
    q: &Vec<F32Bits>,
    start: usize,
    from: usize,
    to: usize,
    f: &F,
) -> (r: usize)
    requires
        measures(*f),
        nodes@.len() <= entries@.len(),
        links_lead(nodes@),
        stands(nodes@, start as int, from as int),
    ensures
        from >= to ==> stands(nodes@, r as int, to as int),
        r == start || stands(nodes@, r as int, to + 1),
        descended(*f, *q, entries@, nodes@, start, from as int, to as int, r),
{
    let mut cur: usize = start;
    let mut layer: usize = from;
    while layer > to
        invariant
            measures(*f),
            nodes@.len() <= entries@.len(),
            links_lead(nodes@),
            stands(nodes@, cur as int, layer as int),
            from < to ==> cur == start,
            cur == start || stands(nodes@, cur as int, layer + 1),
            from >= to ==> layer >= to,
            from < to ==> layer == from,
            forall|r: usize| #[trigger]
                descended(*f, *q, entries@, nodes@, cur, layer as int, to as int, r) ==> descended(
                    *f,
                    *q,
                    entries@,
                    nodes@,
                    start,
                    from as int,
                    to as int,
                    r,
                ),
        decreases layer,
    {
        let mut eps: Vec<usize> = Vec::new();
        eps.push(cur);
        assert forall|x: usize| #[trigger] eps@.contains(x) implies stands(
            nodes@,
            x as int,
            layer as int,
        ) by {
            assert(x == cur);
        }
        let found = search_layer(entries, nodes, q, &eps, 1, layer, f);
        assert(eps@ =~= seq![cur]);
        let ghost was = cur;
        if found.len() > 0 {
            cur = found[0].id;
            assert(holds(found@, cur));
        }
        assert forall|r: usize| #[trigger]
            descended(*f, *q, entries@, nodes@, cur, layer - 1, to as int, r) implies descended(
            *f,
            *q,
            entries@,
            nodes@,
            start,
            from as int,
            to as int,
            r,
        ) by {
            assert(is_found(found@, *f, *q, entries@, nodes@, seq![was], 1, layer as int));
            assert(descended(*f, *q, entries@, nodes@, was, layer as int, to as int, r));
        }
        layer -= 1;
    }
    assert(descended(*f, *q, entries@, nodes@, cur, layer as int, to as int, cur));
    cur
}

impl HnswIndex {
    /// Whether the links are sound: they belong to the first slots, and the search starts at
    /// one on the top layer.
    closed spec fn linked(self) -> bool {
        &&& self.base.wf()
        &&& self.nodes@.len() <= self.base.stored().len()
        &&& net_ok(self.nodes@, self.cfg)
        &&& self.top_layer < usize::MAX
        &&& forall|x: int|
            0 <= x < self.nodes@.len() ==> 1 <= (#[trigger] self.nodes@[x]).links@.len()
                <= self.top_layer + 1
        &&& self.nodes@.len() == 0 <==> self.entry is None
        &&& self.entry matches Some(e) ==> stands(self.nodes@, e as int, self.top_layer as int)
    }

    /// Every vector is linked, and the links are sound.
    pub closed spec fn wf(self) -> bool {
        self.linked() && self.nodes@.len() == self.base.stored().len()
    }

    /// The entries, in the order in which they came.
    pub closed spec fn stored(self) -> Seq<Entry> {
        self.base.stored()
    }

    /// The links, where searches start, and the state of the generator.
    pub closed spec fn whole(self) -> NetV {
        NetV { nodes: self.nodes@, entry: self.entry, top: self.top_layer, state: self.rng }
    }

    /// The links, slot by slot.
    pub open spec fn net(self) -> Seq<GraphNode> {
        self.whole().nodes
    }

    /// The tunables.
    pub closed spec fn config(self) -> HnswConfig {
        self.cfg
    }

    /// Whether the links come of inserting the entries in their order, with the given levels
    /// and distances.
    pub open spec fn made<G: Fn(u64) -> usize, F: Fn(&Vec<F32Bits>, &Vec<F32Bits>) -> F32Bits>(
        self,
        g: G,
        f: F,
    ) -> bool {
        built(g, f, self.stored(), self.config(), self.stored().len(), self.whole())
    }

    /// Whether the links follow from those of another index by a vector: a new slot is inserted,
    /// an equal vector changes nothing, and for another vector all links are made anew.
    pub open spec fn follows<
        G: Fn(u64) -> usize,
        F: Fn(&Vec<F32Bits>, &Vec<F32Bits>) -> F32Bits,
    >(self, before: HnswIndex, key: NodeId, vec: Seq<F32Bits>, g: G, f: F) -> bool {
        if !before@.ids.contains(key) {
            joined(g, f, self.stored(), self.config(), before.whole(), self.whole())
        } else if equal_vectors(before@.vecs[key], vec) {
            self.whole() == before.whole()
        } else {
            self.made(g, f)
        }
    }

    /// Whether hits answer a query: the nearest `k` of what a search of the lowest layer finds
    /// from where a descent from the top leads.
    pub open spec fn answers<F: Fn(&Vec<F32Bits>, &Vec<F32Bits>) -> F32Bits>(
        self,
        f: F,
        q: Vec<F32Bits>,
        k: usize,
        hits: Seq<(NodeId, F32Bits)>,
    ) -> bool {
        match self.whole().entry {
            None => hits.len() == 0,
            Some(e) => exists|found: Seq<Cand>, start: usize|
                descended(
                    f,
                    q,
                    self.stored(),
                    self.net(),
                    e,
                    self.whole().top as int,
                    0,
                    start,
                ) && #[trigger] is_found(
                    found,
                    f,
                    q,
                    self.stored(),
                    self.net(),
                    seq![start],
                    wider(self.config().ef_search, k),
                    0,
                ) && hits == hits_of(nearest(found, k as int), self.stored()),
        }
    }

    /// An empty index with the usual tunables.
    pub fn new() -> (r: HnswIndex)
        ensures
            r.wf(),
            r@ == index::empty_index(),
            r.config() == usual_config(),
            r.stored().len() == 0,
            r.whole() == (NetV {
                nodes: Seq::empty(),
                entry: None,
                top: 0,
                state: usual_config().seed,
            }),
    {
        HnswIndex::with_config(
            HnswConfig {
                m: 16,
                m0: 32,
                ef_construction: 200,
                ef_search: 128,
                seed: 0x243F_6A88_85A3_08D3,
            },
        )
    }

    /// An empty index.
    pub fn with_config(cfg: HnswConfig) -> (r: HnswIndex)
        ensures
            r.wf(),
            r@ == index::empty_index(),
            r.config() == cfg,
            r.stored().len() == 0,
            r.whole() == (NetV { nodes: Seq::empty(), entry: None, top: 0, state: cfg.seed }),
    {
        let base = BruteForceIndex::new();
        proof {
            base.shape();
            assert(index::entry_ids(base.stored()).len() == base.stored().len());
        }
        HnswIndex { cfg, base, nodes: Vec::new(), entry: None, top_layer: 0, rng: cfg.seed }
    }

    /// The number of vectors.
    pub fn len(&self) -> (r: usize)
        ensures
            r == self@.ids.len(),
    {
        self.base.len()
    }

    /// Whether there is no vector.
    pub fn is_empty(&self) -> (r: bool)
        ensures
            r == (self@.ids.len() == 0),
    {
        self.base.is_empty()
    }

    /// The entries, in the order in which they came.
    pub fn entries(&self) -> (r: &Vec<Entry>)
        ensures
            r@ == self.stored(),
            index::entry_ids(r@) == self@.ids,
            index::entry_vecs(r@) == self@.vecs,
    {
        self.base.entries()
    }

    /// There are links for every entry; each leads to another slot on the same layer, and no
    /// slot has more of them than its layer allows.
    pub proof fn shape(&self)
        requires
            self.wf(),
        ensures
            net_ok(self.net(), self.config()),
            self.net().len() == self.stored().len() == self@.ids.len(),
            index::entry_ids(self.stored()) == self@.ids,
            forall|x: int| 0 <= x < self.net().len() ==> stands(self.net(), x, 0),
    {
        self.base.shape();
        assert(index::entry_ids(self.stored()).len() == self.stored().len());
        assert forall|x: int| 0 <= x < self.net().len() implies stands(self.net(), x, 0) by {
            assert(self.nodes@[x].links@.len() >= 1);
        }
    }

    /// Links the next slot.
    fn link_next<G: Fn(u64) -> usize, F: Fn(&Vec<F32Bits>, &Vec<F32Bits>) -> F32Bits>(
        &mut self,
        level_of: &G,
        f: &F,
    )
        requires
            old(self).linked(),
            old(self).nodes@.len() < old(self).base.stored().len(),
            gives_levels(*level_of),
            measures(*f),
        ensures
            final(self).linked(),
            final(self).base == old(self).base,
            final(self).cfg == old(self).cfg,
            final(self).nodes@.len() == old(self).nodes@.len() + 1,
            joined(
                *level_of,
                *f,
                old(self).base.stored(),
                old(self).cfg,
                old(self).whole(),
                final(self).whole(),
            ),
    {
        let total: usize = self.base.len();
        proof {
            self.base.shape();
            assert(index::entry_ids(self.base.stored()).len() == total);
        }
        let draw: u64 = splitmix64(&mut self.rng) >> 11;
        let level: usize = level_of(draw);
        assert(call_ensures(*level_of, (draw,), level));
        let id: usize = self.nodes.len();
        let cfg = self.cfg;
        let ghost was = self.nodes@;
        self.nodes.push(GraphNode { links: empty_layers(level + 1) });
        proof {
            lemma_net_grows(was, self.nodes@, cfg);
        }
        let entry: usize = match self.entry {
            Some(e) => e,
            None => {
                self.entry = Some(id);
                self.top_layer = level;
                assert(placed_at(
                    *f,
                    self.base.stored(),
                    cfg,
                    old(self).whole(),
                    self.whole(),
                    level,
                    self.nodes@,
                    id,
                ));
                return;
            },
        };
        assert(stands(was, entry as int, self.top_layer as int));
        assert(self.nodes@[entry as int] == was[entry as int]);
        let top: usize = self.top_layer;
        let entries = self.base.entries();
        let q = &entries[id].vec;
        let first: usize = descend(entries, &self.nodes, q, entry, top, level, f);
        let start: usize = if top < level {
            top
        } else {
            level
        };
        let mut eps: Vec<usize> = Vec::new();
        eps.push(first);
        let mut layer: usize = start + 1;
        let ghost grown = self.nodes@;
        assert(eps@ =~= seq![first]);
        assert forall|x: usize| #[trigger] eps@.contains(x) implies x != id && stands(
            self.nodes@,
            x as int,
            layer - 1,
        ) by {
            assert(x == first);
        }
        while layer > 0
            invariant
                measures(*f),
                layer <= start + 1,
                start <= level,
                start < usize::MAX,
                self.nodes@.len() <= entries@.len(),
                id < self.nodes@.len(),
                q == entries@[id as int].vec,
                cfg == self.cfg,
                net_ok(self.nodes@, cfg),
                same_slots(grown, self.nodes@),
                grown[id as int].links@.len() == level + 1,
                grown.len() == id + 1,
                fresh_below(self.nodes@, id, layer as int),
                eps@.no_duplicates(),
                eps@.len() > 0,
                layer > 0 ==> forall|x: usize| #[trigger]
                    eps@.contains(x) ==> x != id && stands(self.nodes@, x as int, layer - 1),
                self.base == old(self).base,
                self.cfg == old(self).cfg,
                self.rng == next_state(old(self).rng),
                self.top_layer == top,
                self.entry == Some(entry),
                entries@ == self.base.stored(),
                forall|b: Seq<GraphNode>| #[trigger]
                    linked_down(*f, entries@, cfg, id, self.nodes@, eps@, layer as int, b)
                        ==> linked_down(
                        *f,
                        entries@,
                        cfg,
                        id,
                        grown,
                        seq![first],
                        start + 1,
                        b,
                    ),
            decreases layer,
        {
            let ghost eps0 = eps@;
            layer -= 1;
            let found = search_layer(entries, &self.nodes, q, &eps, cfg.ef_construction, layer, f);
            let ghost before = self.nodes@;
            proof {
                assert(grown[id as int].links@.len() == before[id as int].links@.len());
                lemma_not_found(found@, *f, *q, entries@, before, eps@, cfg.ef_construction as nat, layer as int, id);
            }
            let cap: usize = if layer == 0 {
                cfg.m0
            } else {
                cfg.m
            };
            let (chosen, all) = ids_of(&found, cap);
            assert forall|y: usize| #[trigger] chosen@.contains(y) implies y != id && stands(
                before,
                y as int,
                layer as int,
            ) by {
                assert(holds(found@, y));
            }
            let ghost near = chosen@;
            connect(entries, &mut self.nodes, id, layer, chosen, cfg, cap, f);
            eps = all;
            proof {
                assert forall|b: Seq<GraphNode>| #[trigger]
                    linked_down(*f, entries@, cfg, id, self.nodes@, eps@, layer as int, b) implies
                    linked_down(*f, entries@, cfg, id, grown, seq![first], start + 1, b) by {
                    assert(is_found(
                        found@,
                        *f,
                        entries@[id as int].vec,
                        entries@,
                        before,
                        eps0,
                        cfg.ef_construction as nat,
                        layer as int,
                    ));
                    assert(connected(
                        *f,
                        entries@,
                        cap_of(cfg, layer as int) as nat,
                        before,
                        self.nodes@,
                        id,
                        layer as int,
                        slots_of(nearest(found@, cap_of(cfg, layer as int) as int)),
                    ));
                    assert(linked_down(*f, entries@, cfg, id, before, eps0, layer + 1, b));
                }
                assert forall|x: int| 0 <= x < grown.len() implies (#[trigger] grown[x]).links@.len()
                    == self.nodes@[x].links@.len() by {
                    assert(before[x].links@.len() == self.nodes@[x].links@.len());
                }
                if layer > 0 {
                    assert forall|x: usize| #[trigger] eps@.contains(x) implies x != id && stands(
                        self.nodes@,
                        x as int,
                        layer - 1,
                    ) by {
                        assert(holds(found@, x));
                        assert(stands(before, x as int, layer as int));
                        assert(before[x as int].links@.len() == self.nodes@[x as int].links@.len());
                    }
                }
            }
        }
        assert(linked_down(*f, entries@, cfg, id, self.nodes@, eps@, 0, self.nodes@));
        if level > top {
            self.entry = Some(id);
            self.top_layer = level;
        }
        assert(placed_at(
            *f,
            self.base.stored(),
            cfg,
            old(self).whole(),
            self.whole(),
            level,
            grown,
            first,
        ));
        assert(grown[entry as int].links@.len() == self.nodes@[entry as int].links@.len());
        assert(grown[id as int].links@.len() == self.nodes@[id as int].links@.len());
        assert forall|x: int| 0 <= x < self.nodes@.len() implies 1 <= (#[trigger] self.nodes@[x]).links@.len()
            <= self.top_layer + 1 by {
            assert(grown[x].links@.len() == self.nodes@[x].links@.len());
            if x < id {
                assert(grown[x] == was[x]);
            }
        }
    }

    /// Inserts the vector of a node, or replaces it; an equal vector changes nothing. Where a
    /// vector changes, all links are made anew. `level_of` turns a draw of 53 bits into the
    /// level of a slot, and `f` measures distances.
    pub fn upsert<G: Fn(u64) -> usize, F: Fn(&Vec<F32Bits>, &Vec<F32Bits>) -> F32Bits>(
        &mut self,
        key: NodeId,
        vec: Vec<F32Bits>,
        level_of: &G,
        f: &F,
    )
        requires
            old(self).wf(),
            gives_levels(*level_of),
            measures(*f),
        ensures
            final(self).wf(),
            final(self)@ == after_upsert(old(self)@, key, vec@),
            final(self).config() == old(self).config(),
            final(self).follows(*old(self), key, vec@, *level_of, *f),
            old(self).made(*level_of, *f) ==> final(self).made(*level_of, *f),
    {
        proof {
            self.base.shape();
        }
        match self.base.place(key) {
            Some(at) => {
                assert(self@.ids.contains(key));
                assert(index::entry_ids(self.base.stored())[at as int] == key);
                assert(self.base.stored()[at as int].id == key);
                if same_vector(&self.base.entries()[at].vec, &vec) {
                    return;
                }
                self.base.upsert(key, vec);
                self.relink(level_of, f);
            },
            None => {
                let n: usize = self.nodes.len();
                assert(self.base.stored().len() == n);
                self.base.upsert(key, vec);
                proof {
                    self.base.shape();
                    assert(index::entry_ids(self.base.stored()).len() == self.base.stored().len());
                    assert(!old(self)@.vecs.contains_key(key));
                }
                let ghost (was, now) = (old(self).stored(), self.stored());
                self.link_next(level_of, f);
                proof {
                    assert(extends(was, now));
                    if old(self).made(*level_of, *f) {
                        lemma_built_extends(
                            *level_of,
                            *f,
                            was,
                            now,
                            self.cfg,
                            was.len(),
                            old(self).whole(),
                        );
                    }
                }
            },
        }
    }

    /// Makes all links anew, in the order of the entries.
    fn relink<G: Fn(u64) -> usize, F: Fn(&Vec<F32Bits>, &Vec<F32Bits>) -> F32Bits>(
        &mut self,
        level_of: &G,
        f: &F,
    )
        requires
            old(self).base.wf(),
            gives_levels(*level_of),
            measures(*f),
        ensures
            final(self).wf(),
            final(self).base == old(self).base,
            final(self).cfg == old(self).cfg,
            final(self).made(*level_of, *f),
    {
        self.nodes = Vec::new();
        self.entry = None;
        self.top_layer = 0;
        self.rng = self.cfg.seed;
        let n: usize = self.base.len();
        proof {
            self.base.shape();
            assert(index::entry_ids(self.base.stored()).len() == self.base.stored().len());
        }
        for i in 0..n
            invariant
                self.linked(),
                self.base == old(self).base,
                self.cfg == old(self).cfg,
                self.nodes@.len() == i,
                n == self.base.stored().len(),
                gives_levels(*level_of),
                measures(*f),
                built(*level_of, *f, self.stored(), self.cfg, i as nat, self.whole()),
        {
            let ghost was = self.whole();
            self.link_next(level_of, f);
            assert(joined(*level_of, *f, self.stored(), self.cfg, was, self.whole()));
        }
    }

    /// The approximately nearest `k` nodes to a query with their distances, the nearest first.
    pub fn search<F: Fn(&Vec<F32Bits>, &Vec<F32Bits>) -> F32Bits>(
        &self,
        q: &Vec<F32Bits>,
        k: usize,
        f: &F,
    ) -> (r: Vec<(NodeId, F32Bits)>)
        requires
            self.wf(),
            measures(*f),
        ensures
            self@.ids.len() == 0 ==> r@.len() == 0,
            self@.ids.len() != 0 && k != 0 ==> r@.len() != 0,
            self.answers(*f, *q, k, r@),
    {
        let mut out: Vec<(NodeId, F32Bits)> = Vec::new();
        proof {
            self.shape();
        }
        let entry: usize = match self.entry {
            Some(e) => e,
            None => {
                return out;
            },
        };
        let entries = self.base.entries();
        let start: usize = descend(entries, &self.nodes, q, entry, self.top_layer, 0, f);
        let mut eps: Vec<usize> = Vec::new();
        eps.push(start);
        assert forall|x: usize| #[trigger] eps@.contains(x) implies stands(self.nodes@, x as int, 0) by {
            assert(x == start);
        }
        let width: usize = if self.cfg.ef_search < k {
            k
        } else {
            self.cfg.ef_search
        };
        let found = search_layer(entries, &self.nodes, q, &eps, width, 0, f);
        assert(eps@ =~= seq![start]);
        let n: usize = if k < found.len() {
            k
        } else {
            found.len()
        };
        for i in 0..n
            invariant
                n <= found@.len(),
                well_measured(found@, *f, *q, entries@),
                out@.len() == i,
                forall|j: int|
                    0 <= j < i ==> #[trigger] out@[j] == (
                        entries@[found@[j].id as int].id,
                        found@[j].dist,
                    ),
        {
            let c: Cand = found[i];
            assert(found@[i as int].id < entries@.len());
            out.push((entries[c.id].id, c.dist));
        }
        proof {
            assert(out@ =~= hits_of(nearest(found@, k as int), self.stored()));
            assert(start < self.stored().len());
            assert(is_found(
                found@,
                *f,
                *q,
                self.stored(),
                self.net(),
                seq![start],
                wider(self.config().ef_search, k),
                0,
            ));
        }
        out
    }
}

/// The slots of candidates: of the first ones, and of all.
fn ids_of(found: &Vec<Cand>, cap: usize) -> (r: (Vec<usize>, Vec<usize>))
    requires
        distinct(found@),
    ensures
        r.0@ == slots_of(nearest(found@, cap as int)),
        r.0@.len() <= cap,
        r.0@.no_duplicates(),
        forall|x: usize| #[trigger] r.0@.contains(x) ==> holds(found@, x),
        r.1@ == slots_of(found@),
        r.1@.no_duplicates(),
        forall|x: usize| #[trigger] r.1@.contains(x) ==> holds(found@, x),
{
    let mut first: Vec<usize> = Vec::new();
    let mut all: Vec<usize> = Vec::new();
    let n: usize = found.len();
    for i in 0..n
        invariant
            n == found@.len(),
            all@ == slots_of(found@).take(i as int),
            first@ == slots_of(found@).take(
                if i < cap {
                    i as int
                } else {
                    cap as int
                },
            ),
    {
        if i < cap {
            first.push(found[i].id);
            assert(first@ =~= slots_of(found@).take(i + 1));
        }
        all.push(found[i].id);
        assert(all@ =~= slots_of(found@).take(i + 1));
    }
    assert(all@ =~= slots_of(found@));
    assert(first@ =~= slots_of(nearest(found@, cap as int)));
    assert forall|x: usize| #[trigger] first@.contains(x) implies holds(found@, x) by {
        let j = choose|j: int| 0 <= j < first@.len() && first@[j] == x;
        assert(found@[j].id == x);
    }
    assert forall|x: usize| #[trigger] all@.contains(x) implies holds(found@, x) by {
        let j = choose|j: int| 0 <= j < all@.len() && all@[j] == x;
        assert(found@[j].id == x);
    }
    assert forall|i: int, j: int| 0 <= i < j < all@.len() implies all@[i] != all@[j] by {
        assert(found@[i].id != found@[j].id);
    }
    (first, all)
}

/// A net stays sound when a slot without links is added.
proof fn lemma_net_grows(a: Seq<GraphNode>, b: Seq<GraphNode>, cfg: HnswConfig)
    requires
        net_ok(a, cfg),
        b.len() == a.len() + 1,
        a.len() < usize::MAX,
        forall|x: int| 0 <= x < a.len() ==> #[trigger] b[x] == a[x],
        forall|l: int|
            0 <= l < b.last().links@.len() ==> (#[trigger] b.last().links@[l])@.len() == 0,
    ensures
        net_ok(b, cfg),
        fresh_below(b, a.len() as usize, usize::MAX as int + 1),
{
    assert forall|x: int, l: int, y: usize|
        stands(b, x, l) && #[trigger] links_of(b, x, l).contains(y) implies stands(b, y as int, l)
        && y != x && y < a.len() by {
        if x < a.len() {
            assert(b[x] == a[x]);
            assert(stands(a, x, l));
            assert(links_of(a, x, l).contains(y));
            assert(b[y as int] == a[y as int]);
        } else {
            assert(b.last().links@[l]@.len() == 0);
        }
    }
    assert forall|x: int, l: int| stands(b, x, l) implies (#[trigger] links_of(b, x, l)).len()
        <= cap_of(cfg, l) by {
        if x < a.len() {
            assert(b[x] == a[x]);
            assert(stands(a, x, l));
            assert(links_of(a, x, l).len() <= cap_of(cfg, l));
        } else {
            assert(b.last().links@[l]@.len() == 0);
        }
    }
    assert forall|l: int| 0 <= l < usize::MAX as int + 1 implies !(#[trigger] is_linked(
        b,
        a.len() as usize,
        l,
    )) by {
        if is_linked(b, a.len() as usize, l) {
            let x = choose|x: int|
                stands(b, x, l) && #[trigger] links_of(b, x, l).contains(a.len() as usize);
            assert(links_of(b, x, l).contains(a.len() as usize));
        }
    }
}

/// Whether entries are others with more behind them.
spec fn extends(a: Seq<Entry>, b: Seq<Entry>) -> bool {
    a.len() <= b.len() && forall|x: int| 0 <= x < a.len() ==> #[trigger] b[x] == a[x]
}

proof fn lemma_found_extends<F: Fn(&Vec<F32Bits>, &Vec<F32Bits>) -> F32Bits>(
    v: Seq<Cand>,
    f: F,
    q: Vec<F32Bits>,
    a: Seq<Entry>,
    b: Seq<Entry>,
    nodes: Seq<GraphNode>,
    eps: Seq<usize>,
    ef: nat,
    layer: int,
)
    requires
        extends(a, b),
        nodes.len() <= a.len(),
        links_lead(nodes),
        forall|x: usize| #[trigger] eps.contains(x) ==> stands(nodes, x as int, layer),
        is_found(v, f, q, a, nodes, eps, ef, layer),
    ensures
        is_found(v, f, q, b, nodes, eps, ef, layer),
{
    assert forall|i: int| 0 <= i < v.len() implies (#[trigger] v[i]).id < b.len() && v[i].dist
        == dist_of(f, q, b, v[i].id as int) by {
        assert(b[v[i].id as int] == a[v[i].id as int]);
    }
    if all_numbers(f, q, b) {
        assert forall|x: int| 0 <= x < a.len() implies !rank::is_nan(
            #[trigger] dist_of(f, q, a, x),
        ) by {
            assert(b[x] == a[x]);
            assert(!rank::is_nan(dist_of(f, q, b, x)));
        }
        assert forall|x: usize| #[trigger] eps.contains(x) implies dealt_with(
            v,
            f,
            q,
            b,
            ef,
            x,
        ) by {
            assert(b[x as int] == a[x as int]);
            assert(dealt_with(v, f, q, a, ef, x));
        }
        assert forall|i: int, y: usize|
            0 <= i < v.len() && #[trigger] links_of(nodes, v[i].id as int, layer).contains(
                y,
            ) implies dealt_with(v, f, q, b, ef, y) by {
            assert(holds(v, v[i].id));
            assert(stands(nodes, y as int, layer));
            assert(b[y as int] == a[y as int]);
            assert(dealt_with(v, f, q, a, ef, y));
        }
    }
}

proof fn lemma_descended_extends<F: Fn(&Vec<F32Bits>, &Vec<F32Bits>) -> F32Bits>(
    f: F,
    q: Vec<F32Bits>,
    a: Seq<Entry>,
    b: Seq<Entry>,
    nodes: Seq<GraphNode>,
    cur: usize,
    from: int,
    to: int,
    r: usize,
)
    requires
        extends(a, b),
        nodes.len() <= a.len(),
        links_lead(nodes),
        descended(f, q, a, nodes, cur, from, to, r),
    ensures
        descended(f, q, b, nodes, cur, from, to, r),
    decreases from - to,
{
    if from > to {
        let found = choose|found: Seq<Cand>| #[trigger]
            is_found(found, f, q, a, nodes, seq![cur], 1, from) && found.len() > 0 && descended(
                f,
                q,
                a,
                nodes,
                found[0].id,
                from - 1,
                to,
                r,
            );
        lemma_found_extends(found, f, q, a, b, nodes, seq![cur], 1, from);
        lemma_descended_extends(f, q, a, b, nodes, found[0].id, from - 1, to, r);
    }
}

proof fn lemma_connected_extends<F: Fn(&Vec<F32Bits>, &Vec<F32Bits>) -> F32Bits>(
    f: F,
    a: Seq<Entry>,
    b: Seq<Entry>,
    cap: nat,
    n: Seq<GraphNode>,
    m: Seq<GraphNode>,
    id: usize,
    layer: int,
    chosen: Seq<usize>,
)
    requires
        extends(a, b),
        id < n.len() <= a.len(),
        links_lead(n),
        forall|y: usize| #[trigger] chosen.contains(y) ==> stands(n, y as int, layer),
        connected(f, a, cap, n, m, id, layer, chosen),
    ensures
        connected(f, b, cap, n, m, id, layer, chosen),
{
    assert forall|y: usize| #[trigger] chosen.contains(y) implies is_pruned(
        links_of(m, y as int, layer),
        links_of(n, y as int, layer).push(id),
        cap,
        f,
        b,
        y as int,
    ) by {
        let kept = links_of(m, y as int, layer);
        let links = links_of(n, y as int, layer);
        let all = links.push(id);
        assert(is_pruned(kept, all, cap, f, a, y as int));
        assert forall|z: usize| #[trigger] all.contains(z) implies b[z as int] == a[z as int] by {
            let j = choose|j: int| 0 <= j < all.len() && all[j] == z;
            if j < links.len() {
                assert(links[j] == z);
                assert(links.contains(z));
                assert(stands(n, z as int, layer));
            }
        }
        assert(b[y as int] == a[y as int]);
    }
}

proof fn lemma_linked_down_extends<F: Fn(&Vec<F32Bits>, &Vec<F32Bits>) -> F32Bits>(
    f: F,
    a: Seq<Entry>,
    b: Seq<Entry>,
    cfg: HnswConfig,
    id: usize,
    n: Seq<GraphNode>,
    eps: Seq<usize>,
    layers: int,
    m: Seq<GraphNode>,
)
    requires
        extends(a, b),
        id < n.len() <= a.len(),
        linked_down(f, a, cfg, id, n, eps, layers, m),
    ensures
        linked_down(f, b, cfg, id, n, eps, layers, m),
    decreases layers,
{
    if layers > 0 {
        let layer = layers - 1;
        let ef = cfg.ef_construction as nat;
        let cap = cap_of(cfg, layer);
        let q = a[id as int].vec;
        let (found, mid) = choose|found: Seq<Cand>, mid: Seq<GraphNode>| #[trigger]
            is_found(found, f, q, a, n, eps, ef, layer) && #[trigger] connected(
                f,
                a,
                cap as nat,
                n,
                mid,
                id,
                layer,
                slots_of(nearest(found, cap as int)),
            ) && linked_down(f, a, cfg, id, mid, slots_of(found), layer, m);
        let chosen = slots_of(nearest(found, cap as int));
        assert(b[id as int] == a[id as int]);
        lemma_found_extends(found, f, q, a, b, n, eps, ef, layer);
        assert forall|y: usize| #[trigger] chosen.contains(y) implies stands(
            n,
            y as int,
            layer,
        ) by {
            let j = choose|j: int| 0 <= j < chosen.len() && chosen[j] == y;
            assert(found[j].id == y);
            assert(holds(found, y));
        }
        lemma_connected_extends(f, a, b, cap as nat, n, mid, id, layer, chosen);
        lemma_linked_down_extends(f, a, b, cfg, id, mid, slots_of(found), layer, m);
    }
}

proof fn lemma_joined_extends<
    G: Fn(u64) -> usize,
    F: Fn(&Vec<F32Bits>, &Vec<F32Bits>) -> F32Bits,
>(g: G, f: F, a: Seq<Entry>, b: Seq<Entry>, cfg: HnswConfig, x: NetV, y: NetV)
    requires
        extends(a, b),
        x.nodes.len() < a.len() <= usize::MAX,
        joined(g, f, a, cfg, x, y),
    ensures
        joined(g, f, b, cfg, x, y),
{
    let (level, wide, first) = choose|level: usize, wide: Seq<GraphNode>, first: usize|
        call_ensures(g, (scrambled(y.state) >> 11,), level) && #[trigger] placed_at(
            f,
            a,
            cfg,
            x,
            y,
            level,
            wide,
            first,
        );
    let id = x.nodes.len() as usize;
    assert(b[id as int] == a[id as int]);
    match x.entry {
        Some(e) => {
            lemma_descended_extends(
                f,
                a[id as int].vec,
                a,
                b,
                wide,
                e,
                x.top as int,
                level as int,
                first,
            );
            lemma_linked_down_extends(
                f,
                a,
                b,
                cfg,
                id,
                wide,
                seq![first],
                if x.top < level {
                    x.top + 1
                } else {
                    level + 1
                },
                y.nodes,
            );
        },
        None => {},
    }
    assert(placed_at(f, b, cfg, x, y, level, wide, first));
}

proof fn lemma_built_extends<
    G: Fn(u64) -> usize,
    F: Fn(&Vec<F32Bits>, &Vec<F32Bits>) -> F32Bits,
>(g: G, f: F, a: Seq<Entry>, b: Seq<Entry>, cfg: HnswConfig, n: nat, y: NetV)
    requires
        extends(a, b),
        n <= a.len() <= usize::MAX,
        built(g, f, a, cfg, n, y),
    ensures
        built(g, f, b, cfg, n, y),
    decreases n,
{
    if n > 0 {
        let x = choose|x: NetV|
            x.nodes.len() == n - 1 && #[trigger] joined(g, f, a, cfg, x, y) && built(
                g,
                f,
                a,
                cfg,
                (n - 1) as nat,
                x,
            );
        lemma_joined_extends(g, f, a, b, cfg, x, y);
        lemma_built_extends(g, f, a, b, cfg, (n - 1) as nat, x);
    }
}

/// What nothing links to and is no entry point is not found.
proof fn lemma_not_found<F: Fn(&Vec<F32Bits>, &Vec<F32Bits>) -> F32Bits>(
    found: Seq<Cand>,
    f: F,
    q: Vec<F32Bits>,
    entries: Seq<Entry>,
    nodes: Seq<GraphNode>,
    eps: Seq<usize>,
    ef: nat,
    layer: int,
    id: usize,
)
    requires
        is_found(found, f, q, entries, nodes, eps, ef, layer),
        !eps.contains(id),
        fresh_below(nodes, id, layer + 1),
        0 <= layer,
    ensures
        forall|x: usize| #[trigger]
            holds(found, x) ==> x != id && stands(nodes, x as int, layer),
{
    assert(!is_linked(nodes, id, layer));
}

// ---------------------------------------------------------------------------
// Laws
// ---------------------------------------------------------------------------

/// The best that a search finds is not farther than any of its entry points.
pub proof fn search_improves_on_its_start<F: Fn(&Vec<F32Bits>, &Vec<F32Bits>) -> F32Bits>(
    found: Seq<Cand>,
    f: F,
    q: Vec<F32Bits>,
    entries: Seq<Entry>,
    nodes: Seq<GraphNode>,
    eps: Seq<usize>,
    ef: nat,
    layer: int,
    x: usize,
)
    requires
        is_found(found, f, q, entries, nodes, eps, ef, layer),
        all_numbers(f, q, entries),
        eps.contains(x),
    ensures
        found.len() > 0,
        far_key(found[0].dist) <= far_key(dist_of(f, q, entries, x as int)),
{
    assert(dealt_with(found, f, q, entries, ef, x));
    if holds(found, x) {
        let i = choose|i: int| 0 <= i < found.len() && (#[trigger] found[i]).id == x;
        if i > 0 {
            assert(far_key(found[0].dist) <= far_key(found[i].dist));
        }
    }
}

/// A search that finds fewer slots than it may has found all that its finds link to: it is
/// exact within what can be reached.
pub proof fn short_search_is_exhaustive<F: Fn(&Vec<F32Bits>, &Vec<F32Bits>) -> F32Bits>(
    found: Seq<Cand>,
    f: F,
    q: Vec<F32Bits>,
    entries: Seq<Entry>,
    nodes: Seq<GraphNode>,
    eps: Seq<usize>,
    ef: nat,
    layer: int,
    i: int,
    y: usize,
)
    requires
        is_found(found, f, q, entries, nodes, eps, ef, layer),
        all_numbers(f, q, entries),
        found.len() < ef,
        0 <= i < found.len(),
        links_of(nodes, found[i].id as int, layer).contains(y),
    ensures
        holds(found, y),
{
    assert(dealt_with(found, f, q, entries, ef, y));
}

/// Inserting a vector again changes nothing, whatever the index holds, unless some number in it
/// is not a number.
pub proof fn approximate_upsert_idempotent(ix: IndexV, id: NodeId, vec: Seq<F32Bits>)
    requires
        forall|x: NodeId| #[trigger] ix.vecs.contains_key(x) <==> ix.ids.contains(x),
        equal_vectors(vec, vec),
    ensures
        after_upsert(after_upsert(ix, id, vec), id, vec) == after_upsert(ix, id, vec),
{
    let once = after_upsert(ix, id, vec);
    if !(ix.ids.contains(id) && equal_vectors(ix.vecs[id], vec)) {
        if !ix.vecs.contains_key(id) {
            assert(once.ids[ix.ids.len() as int] == id);
        }
        assert(once.ids.contains(id));
        assert(once.vecs[id] == vec);
    }
}

/// Linking goes both ways: a slot links to all that were chosen for it, and each of them links
/// back, where it has room; where it has none it keeps the nearest of its links.
pub proof fn links_go_both_ways<F: Fn(&Vec<F32Bits>, &Vec<F32Bits>) -> F32Bits>(
    f: F,
    entries: Seq<Entry>,
    cap: nat,
    a: Seq<GraphNode>,
    b: Seq<GraphNode>,
    id: usize,
    layer: int,
    chosen: Seq<usize>,
    y: usize,
    z: usize,
)
    requires
        connected(f, entries, cap, a, b, id, layer, chosen),
        chosen.contains(y),
    ensures
        links_of(b, id as int, layer).contains(y),
        links_of(a, y as int, layer).len() < cap ==> links_of(b, y as int, layer).contains(id),
        links_of(a, y as int, layer).len() < cap && links_of(a, y as int, layer).contains(z)
            ==> links_of(b, y as int, layer).contains(z),
        links_of(b, y as int, layer).len() <= cap || links_of(b, y as int, layer).len()
            <= links_of(a, y as int, layer).len(),
        links_of(b, y as int, layer).contains(z) ==> z == id || links_of(
            a,
            y as int,
            layer,
        ).contains(z),
{
    let was = links_of(a, y as int, layer);
    let now = links_of(b, y as int, layer);
    let all = was.push(id);
    assert(is_pruned(now, all, cap, f, entries, y as int));
    assert(all[was.len() as int] == id);
    if was.contains(z) {
        let i = choose|i: int| 0 <= i < was.len() && was[i] == z;
        assert(all[i] == z);
    }
    if now.contains(z) {
        assert(all.contains(z));
        let i = choose|i: int| 0 <= i < all.len() && all[i] == z;
        if i < was.len() {
            assert(was[i] == z);
        }
    }
}

/// A search gives slots of its layer, each once, with their own distances, the nearest first.
pub proof fn searches_give_the_nearest_first<F: Fn(&Vec<F32Bits>, &Vec<F32Bits>) -> F32Bits>(
    v: Seq<Cand>,
    f: F,
    q: Vec<F32Bits>,
    entries: Seq<Entry>,
    nodes: Seq<GraphNode>,
    eps: Seq<usize>,
    ef: nat,
    layer: int,
    i: int,
    j: int,
)
    requires
        is_found(v, f, q, entries, nodes, eps, ef, layer),
        0 <= i < j < v.len(),
    ensures
        far_key(v[i].dist) <= far_key(v[j].dist),
        v[i].id != v[j].id,
        v[i].id < entries.len(),
        v[i].dist == measured(f, q, entries[v[i].id as int].vec),
        v[j].dist == measured(f, q, entries[v[j].id as int].vec),
        stands(nodes, v[i].id as int, layer),
{
    assert(holds(v, v[i].id));
}

/// What is not a number is farther than every number.
pub proof fn numbers_are_nearer(a: F32Bits, b: F32Bits)
    requires
        !rank::is_nan(a),
        rank::is_nan(b),
    ensures
        far_key(a) < far_key(b),
{
}

/// The vector of a node can be read back after it was put in, but for the sign of zeros.
pub proof fn approximate_vectors_are_kept(ix: IndexV, id: NodeId, vec: Seq<F32Bits>, other: NodeId)
    ensures
        after_upsert(ix, id, vec).vecs[id] == vec || equal_vectors(
            after_upsert(ix, id, vec).vecs[id],
            vec,
        ),
        other != id ==> after_upsert(ix, id, vec).vecs[other] == ix.vecs[other],
{
}

/// The usual parameters of the index.
pub proof fn usual_parameters()
    ensures
        usual_config().m == 16,
        usual_config().m0 == 32,
        usual_config().ef_construction == 200,
        usual_config().ef_search == 128,
        usual_config().seed == 0x243F_6A88_85A3_08D3,
        cap_of(usual_config(), 0) == 32,
        cap_of(usual_config(), 1) == 16,
{
}

/// The generator steps by a constant.
pub proof fn generator_steps_by_a_constant(state: u64)
    ensures
        next_state(state) as int == (state + 0x9E37_79B9_7F4A_7C15) % 0x1_0000_0000_0000_0000,
{
}

/// Where links are too many, so many of the nearest are kept and no other.
pub proof fn pruning_keeps_the_nearest<F: Fn(&Vec<F32Bits>, &Vec<F32Bits>) -> F32Bits>(
    kept: Seq<usize>,
    all: Seq<usize>,
    cap: nat,
    f: F,
    entries: Seq<Entry>,
    id: int,
    y: usize,
    z: usize,
)
    requires
        is_pruned(kept, all, cap, f, entries, id),
    ensures
        all.len() <= cap ==> kept == all,
        all.len() > cap ==> kept.len() == cap,
        kept.contains(y) ==> all.contains(y),
        all.contains(y) && !kept.contains(y) && kept.contains(z) ==> far_key(
            measured(f, entries[id].vec, entries[z as int].vec),
        ) <= far_key(measured(f, entries[id].vec, entries[y as int].vec)),
{
}

/// The hits of a search are the nodes of its slots with their distances; of too many the nearest
/// are given.
pub proof fn hits_name_their_nodes(found: Seq<Cand>, entries: Seq<Entry>, k: int, i: int)
    requires
        0 <= i < found.len(),
        k >= 0,
    ensures
        hits_of(found, entries).len() == found.len(),
        hits_of(found, entries)[i] == (entries[found[i].id as int].id, found[i].dist),
        slots_of(found)[i] == found[i].id,
        k <= found.len() ==> nearest(found, k) == found.subrange(0, k),
        k >= found.len() ==> nearest(found, k) == found,
{
    if k <= found.len() {
        assert(nearest(found, k) =~= found.subrange(0, k));
    }
}

/// Numbers are equal by what they stand for: the two zeros are, and what is not a number is equal
/// to nothing.
pub proof fn numbers_are_equal_by_value(a: F32Bits, b: F32Bits)
    ensures
        !rank::is_nan(a) ==> equal_numbers(a, a),
        rank::is_nan(a) ==> !equal_numbers(a, b),
        equal_numbers(0, 0x8000_0000),
        equal_numbers(a, b) && a != b ==> (a == 0 || a == 0x8000_0000) && (b == 0 || b
            == 0x8000_0000),
{
}

} // verus!
