//! The vector index: one vector for each embedded node, and the nearest of them.
//!
//! Similarities are single-precision numbers that come from outside; the index keeps the
//! vectors and ranks by similarity.

use std::collections::HashMap;

use vstd::prelude::*;

use crate::hnsw;
use crate::hnsw::HnswIndex;
use crate::model::{F32Bits, NodeId};
use crate::rank;

verus! {

broadcast use vstd::std_specs::hash::group_hash_axioms;

/// One indexed vector and the node that it embeds.
pub struct Entry {
    pub id: NodeId,
    pub vec: Vec<F32Bits>,
}

/// What an index holds: the ids in the order in which they came, and the vector of each.
#[verifier::ext_equal]
pub struct IndexV {
    pub ids: Seq<NodeId>,
    pub vecs: Map<NodeId, Seq<F32Bits>>,
}

/// The index that holds nothing.
pub open spec fn empty_index() -> IndexV {
    IndexV { ids: Seq::empty(), vecs: Map::empty() }
}

/// The index after a vector was inserted or replaced.
pub open spec fn with_vector(ix: IndexV, id: NodeId, vec: Seq<F32Bits>) -> IndexV {
    IndexV {
        ids: if ix.vecs.contains_key(id) {
            ix.ids
        } else {
            ix.ids.push(id)
        },
        vecs: ix.vecs.insert(id, vec),
    }
}

/// The ids of a list of entries.
pub open spec fn entry_ids(entries: Seq<Entry>) -> Seq<NodeId> {
    entries.map_values(|e: Entry| e.id)
}

/// The vectors of a list of entries, by id.
pub open spec fn entry_vecs(entries: Seq<Entry>) -> Map<NodeId, Seq<F32Bits>>
    decreases entries.len(),
{
    if entries.len() == 0 {
        Map::empty()
    } else {
        entry_vecs(entries.drop_last()).insert(entries.last().id, entries.last().vec@)
    }
}

/// The `k` most similar ids, the most similar first; equally similar ones keep their order.
pub open spec fn top_hits(ids: Seq<NodeId>, similarities: Seq<F32Bits>, k: nat) -> Seq<
    (NodeId, F32Bits),
> {
    let r = rank::ranking(rank::order_keys(similarities));
    Seq::new(
        if k < r.len() {
            k
        } else {
            r.len()
        },
        |i: int| (ids[r[i] as int], similarities[r[i] as int]),
    )
}

proof fn lemma_entry_vecs(entries: Seq<Entry>)
    requires
        entry_ids(entries).no_duplicates(),
    ensures
        forall|i: int|
            0 <= i < entries.len() ==> entry_vecs(entries).contains_key((#[trigger] entries[i]).id)
                && entry_vecs(entries)[entries[i].id] == entries[i].vec@,
        forall|id: NodeId| #[trigger]
            entry_vecs(entries).contains_key(id) ==> exists|i: int|
                0 <= i < entries.len() && entries[i].id == id,
    decreases entries.len(),
{
    if entries.len() != 0 {
        let t = entries.drop_last();
        let ids = entry_ids(entries);
        assert forall|i: int, j: int| 0 <= i < j < t.len() implies entry_ids(t)[i] != entry_ids(
            t,
        )[j] by {
            assert(ids[i] == entry_ids(t)[i] && ids[j] == entry_ids(t)[j]);
        }
        lemma_entry_vecs(t);
        assert forall|i: int| 0 <= i < entries.len() implies entry_vecs(entries).contains_key(
            (#[trigger] entries[i]).id,
        ) && entry_vecs(entries)[entries[i].id] == entries[i].vec@ by {
            if i < t.len() {
                assert(t[i] == entries[i]);
                assert(ids[i] != ids[entries.len() - 1]);
            }
        }
        assert forall|id: NodeId| #[trigger] entry_vecs(entries).contains_key(id) implies exists|
            i: int,
        |
            0 <= i < entries.len() && entries[i].id == id by {
            if id == entries.last().id {
                assert(entries[entries.len() - 1].id == id);
            } else {
                assert(entry_vecs(t).contains_key(id));
                let i = choose|i: int| 0 <= i < t.len() && t[i].id == id;
                assert(entries[i].id == id);
            }
        }
    }
}

/// Two lists of entries with the same ids, where one vector differs.
proof fn lemma_replace(before: Seq<Entry>, after: Seq<Entry>, at: int)
    requires
        0 <= at < before.len() == after.len(),
        entry_ids(before).no_duplicates(),
        after[at].id == before[at].id,
        forall|j: int| 0 <= j < before.len() && j != at ==> #[trigger] after[j] == before[j],
    ensures
        entry_ids(after) == entry_ids(before),
        entry_vecs(after) == entry_vecs(before).insert(before[at].id, after[at].vec@),
{
    assert(entry_ids(after) =~= entry_ids(before));
    lemma_entry_vecs(before);
    lemma_entry_vecs(after);
    let a = entry_vecs(after);
    let b = entry_vecs(before).insert(before[at].id, after[at].vec@);
    assert forall|id: NodeId|
        (#[trigger] a.dom().contains(id)) == b.dom().contains(id) && (a.dom().contains(id) ==> a[id]
            == b[id]) by {
        if a.contains_key(id) {
            let i = choose|i: int| 0 <= i < after.len() && after[i].id == id;
            assert(entry_ids(after)[i] == entry_ids(before)[i]);
            assert(before[i].id == id);
            if i != at {
                assert(entry_ids(before)[i] != entry_ids(before)[at]);
            }
        }
        if b.contains_key(id) {
            if id != before[at].id {
                let i = choose|i: int| 0 <= i < before.len() && before[i].id == id;
                assert(after[i].id == id);
            } else {
                assert(after[at].id == id);
            }
        }
    }
    assert(a =~= b);
}

/// The exact index.
pub struct BruteForceIndex {
    entries: Vec<Entry>,
    /// Where the vector of an id stands in `entries`.
    pos: HashMap<NodeId, usize>,
}

impl View for BruteForceIndex {
    type V = IndexV;

    closed spec fn view(&self) -> IndexV {
        IndexV { ids: entry_ids(self.entries@), vecs: entry_vecs(self.entries@) }
    }
}

impl BruteForceIndex {
    /// The positions agree with the entries.
    pub closed spec fn wf(self) -> bool {
        &&& entry_ids(self.entries@).no_duplicates()
        &&& forall|id: NodeId| #[trigger]
            self.pos@.contains_key(id) ==> self.pos@[id] < self.entries@.len()
                && self.entries@[self.pos@[id] as int].id == id
        &&& forall|i: int|
            0 <= i < self.entries@.len() ==> self.pos@.contains_key((#[trigger] self.entries@[i]).id)
                && self.pos@[self.entries@[i].id] == i
    }

    /// An empty index.
    pub fn new() -> (r: BruteForceIndex)
        ensures
            r.wf(),
            r@ == empty_index(),
    {
        let r = BruteForceIndex { entries: Vec::new(), pos: HashMap::new() };
        assert(entry_ids(r.entries@) =~= Seq::empty());
        r
    }

    /// The number of vectors.
    pub fn len(&self) -> (r: usize)
        ensures
            r == self@.ids.len(),
    {
        self.entries.len()
    }

    /// Whether there is no vector.
    pub fn is_empty(&self) -> (r: bool)
        ensures
            r == (self@.ids.len() == 0),
    {
        self.entries.len() == 0
    }

    /// The ids of the vectors are those that are listed, each once.
    pub proof fn shape(&self)
        requires
            self.wf(),
        ensures
            self@.ids.no_duplicates(),
            forall|id: NodeId| #[trigger] self@.vecs.contains_key(id) <==> self@.ids.contains(id),
            entry_ids(self.stored()) == self@.ids,
            forall|i: int|
                0 <= i < self@.ids.len() ==> self@.vecs[(#[trigger] self.stored()[i]).id]
                    == self.stored()[i].vec@,
    {
        lemma_entry_vecs(self.entries@);
        assert forall|id: NodeId| #[trigger] self@.vecs.contains_key(id) <==> self@.ids.contains(
            id,
        ) by {
            if self@.vecs.contains_key(id) {
                let i = choose|i: int| 0 <= i < self.entries@.len() && self.entries@[i].id == id;
                assert(self@.ids[i] == id);
            }
            if self@.ids.contains(id) {
                let i = choose|i: int| 0 <= i < self@.ids.len() && self@.ids[i] == id;
                assert(self.entries@[i].id == id);
            }
        }
    }

    /// Inserts the vector of a node, or replaces it in place.
    pub fn upsert(&mut self, id: NodeId, vec: Vec<F32Bits>)
        requires
            old(self).wf(),
        ensures
            final(self).wf(),
            final(self)@ == with_vector(old(self)@, id, vec@),
            !old(self)@.ids.contains(id) ==> final(self).stored() == old(self).stored().push(
                Entry { id, vec },
            ),
    {
        let ghost before = self.entries@;
        proof {
            lemma_entry_vecs(before);
        }
        let at: Option<usize> = match self.pos.get(&id) {
            Some(i) => Some(*i),
            None => None,
        };
        match at {
            Some(i) => {
                self.entries.set(i, Entry { id, vec });
                proof {
                    lemma_replace(before, self.entries@, i as int);
                    assert(before[i as int].id == id);
                    assert(entry_ids(before)[i as int] == id);
                }
            },
            None => {
                let n: usize = self.entries.len();
                self.pos.insert(id, n);
                self.entries.push(Entry { id, vec });
                proof {
                    assert(self.entries@.drop_last() =~= before);
                    assert(entry_ids(self.entries@) =~= entry_ids(before).push(id));
                    assert(!entry_vecs(before).contains_key(id)) by {
                        if entry_vecs(before).contains_key(id) {
                            let i = choose|i: int| 0 <= i < before.len() && before[i].id == id;
                            assert(self.pos@.contains_key(before[i].id));
                        }
                    }
                    let ids = entry_ids(self.entries@);
                    assert forall|i: int, j: int| 0 <= i < j < ids.len() implies ids[i] != ids[j] by {
                        assert(ids[i] == self.entries@[i].id && ids[j] == self.entries@[j].id);
                        assert(before[i].id == ids[i]);
                        if j < before.len() {
                            assert(entry_ids(before)[i] != entry_ids(before)[j]);
                        }
                    }
                }
            },
        }
    }

    /// Where the vector of a node stands among the entries.
    pub fn place(&self, id: NodeId) -> (r: Option<usize>)
        requires
            self.wf(),
        ensures
            match r {
                Some(i) => i < self@.ids.len() && self@.ids[i as int] == id,
                None => !self@.ids.contains(id),
            },
    {
        match self.pos.get(&id) {
            Some(i) => Some(*i),
            None => {
                proof {
                    if self@.ids.contains(id) {
                        let i = choose|i: int| 0 <= i < self@.ids.len() && self@.ids[i] == id;
                        assert(self.entries@[i].id == id);
                    }
                }
                None
            },
        }
    }

    /// The entries, in the order in which they came.
    pub closed spec fn stored(self) -> Seq<Entry> {
        self.entries@
    }

    /// The entries, in the order in which they came.
    pub fn entries(&self) -> (r: &Vec<Entry>)
        ensures
            r@ == self.stored(),
            entry_ids(r@) == self@.ids,
            entry_vecs(r@) == self@.vecs,
    {
        &self.entries
    }

    /// The `k` most similar nodes. `similarities` holds the similarity of each entry to the
    /// query, in the order of the entries.
    pub fn search(&self, similarities: &Vec<F32Bits>, k: usize) -> (r: Vec<(NodeId, F32Bits)>)
        requires
            similarities@.len() == self@.ids.len(),
        ensures
            r@ == top_hits(self@.ids, similarities@, k as nat),
    {
        let keys = rank::order_keys_of(similarities);
        let order = rank::rank(&keys);
        let n: usize = if k < order.len() {
            k
        } else {
            order.len()
        };
        let mut out: Vec<(NodeId, F32Bits)> = Vec::new();
        for i in 0..n
            invariant
                n <= order@.len(),
                rank::is_ranking(keys@, order@),
                keys@.len() == similarities@.len() == self.entries@.len(),
                out@.len() == i,
                forall|j: int|
                    0 <= j < i ==> #[trigger] out@[j] == (
                        self.entries@[order@[j] as int].id,
                        similarities@[order@[j] as int],
                    ),
        {
            let at: usize = order[i];
            assert(order@.contains(at));
            out.push((self.entries[at].id, similarities[at]));
        }
        assert forall|j: int| 0 <= j < n implies #[trigger] out@[j] == (
            self@.ids[order@[j] as int],
            similarities@[order@[j] as int],
        ) by {
            assert(order@.contains(order@[j]));
        }
        assert(out@ =~= top_hits(self@.ids, similarities@, k as nat));
        out
    }
}

// ---------------------------------------------------------------------------
// Either index
// ---------------------------------------------------------------------------

/// The vector index: the exact one, or the approximate one. What they hold is the same.
pub enum VectorIndex {
    Brute(BruteForceIndex),
    Hnsw(HnswIndex),
}

impl View for VectorIndex {
    type V = IndexV;

    open spec fn view(&self) -> IndexV {
        match self {
            VectorIndex::Brute(b) => b@,
            VectorIndex::Hnsw(h) => h@,
        }
    }
}

/// The similarities of a query to vectors.
pub open spec fn similarities_of<S: Fn(&Vec<F32Bits>, &Vec<F32Bits>) -> F32Bits>(
    similarity: S,
    q: Vec<F32Bits>,
    entries: Seq<Entry>,
) -> Seq<F32Bits> {
    entries.map_values(|e: Entry| hnsw::measured(similarity, q, e.vec))
}

/// Whether a function turns distances into similarities.
pub open spec fn turns<T: Fn(F32Bits) -> F32Bits>(turn: T) -> bool {
    forall|x: F32Bits| #[trigger] call_requires(turn, (x,))
}

/// Whether hits are others with their distances turned into similarities.
pub open spec fn turned<T: Fn(F32Bits) -> F32Bits>(
    out: Seq<(NodeId, F32Bits)>,
    hits: Seq<(NodeId, F32Bits)>,
    turn: T,
) -> bool {
    &&& out.len() == hits.len()
    &&& forall|i: int|
        0 <= i < out.len() ==> (#[trigger] out[i]).0 == hits[i].0 && call_ensures(
            turn,
            (hits[i].1,),
            out[i].1,
        )
}

impl VectorIndex {
    /// The index is sound.
    pub open spec fn wf(self) -> bool {
        match self {
            VectorIndex::Brute(b) => b.wf(),
            VectorIndex::Hnsw(h) => h.wf(),
        }
    }

    /// The entries, in the order in which they came.
    pub open spec fn stored(self) -> Seq<Entry> {
        match self {
            VectorIndex::Brute(b) => b.stored(),
            VectorIndex::Hnsw(h) => h.stored(),
        }
    }

    /// An empty exact index.
    pub fn new() -> (r: VectorIndex)
        ensures
            r.wf(),
            r is Brute,
            r@ == empty_index(),
    {
        VectorIndex::Brute(BruteForceIndex::new())
    }

    /// An empty approximate index.
    pub fn approximate() -> (r: VectorIndex)
        ensures
            r.wf(),
            r matches VectorIndex::Hnsw(h) && h.config() == hnsw::usual_config(),
            r@ == empty_index(),
    {
        VectorIndex::Hnsw(HnswIndex::new())
    }

    /// What the index is, for people.
    pub fn backend(&self) -> (r: &'static str)
        ensures
            r@ == (match self {
                VectorIndex::Brute(_) => "brute-force (exact cosine)"@,
                VectorIndex::Hnsw(_) => "hnsw (approximate, --features index-hnsw)"@,
            }),
    {
        match self {
            VectorIndex::Brute(_) => "brute-force (exact cosine)",
            VectorIndex::Hnsw(_) => "hnsw (approximate, --features index-hnsw)",
        }
    }

    /// The number of vectors.
    pub fn len(&self) -> (r: usize)
        ensures
            r == self@.ids.len(),
    {
        match self {
            VectorIndex::Brute(b) => b.len(),
            VectorIndex::Hnsw(h) => h.len(),
        }
    }

    /// Whether there is no vector.
    pub fn is_empty(&self) -> (r: bool)
        ensures
            r == (self@.ids.len() == 0),
    {
        self.len() == 0
    }

    /// The entries, in the order in which they came.
    pub fn entries(&self) -> (r: &Vec<Entry>)
        ensures
            r@ == self.stored(),
            entry_ids(r@) == self@.ids,
            entry_vecs(r@) == self@.vecs,
    {
        match self {
            VectorIndex::Brute(b) => b.entries(),
            VectorIndex::Hnsw(h) => h.entries(),
        }
    }

    /// Inserts the vector of a node, or replaces it in place.
    pub fn upsert<G: Fn(u64) -> usize, F: Fn(&Vec<F32Bits>, &Vec<F32Bits>) -> F32Bits>(
        self,
        id: NodeId,
        vec: Vec<F32Bits>,
        level_of: &G,
        distance: &F,
    ) -> (r: VectorIndex)
        requires
            self.wf(),
            hnsw::gives_levels(*level_of),
            hnsw::measures(*distance),
        ensures
            r.wf(),
            r is Brute == self is Brute,
            r@ == (if self is Brute {
                with_vector(self@, id, vec@)
            } else {
                hnsw::after_upsert(self@, id, vec@)
            }),
            r matches VectorIndex::Hnsw(h) ==> (self matches VectorIndex::Hnsw(was) ==> h.follows(
                was,
                id,
                vec@,
                *level_of,
                *distance,
            ) && h.config() == was.config() && (was.made(*level_of, *distance) ==> h.made(
                *level_of,
                *distance,
            ))),
    {
        match self {
            VectorIndex::Brute(b) => {
                let mut b = b;
                b.upsert(id, vec);
                VectorIndex::Brute(b)
            },
            VectorIndex::Hnsw(h) => {
                let mut h = h;
                h.upsert(id, vec, level_of, distance);
                VectorIndex::Hnsw(h)
            },
        }
    }

    /// The `k` most similar nodes to a query, the most similar first: exactly for the exact
    /// index, approximately for the other. `turn` makes a similarity of a distance.
    pub fn search<
        S: Fn(&Vec<F32Bits>, &Vec<F32Bits>) -> F32Bits,
        F: Fn(&Vec<F32Bits>, &Vec<F32Bits>) -> F32Bits,
        T: Fn(F32Bits) -> F32Bits,
    >(&self, q: &Vec<F32Bits>, k: usize, similarity: &S, distance: &F, turn: &T) -> (r: Vec<
        (NodeId, F32Bits),
    >)
        requires
            self.wf(),
            hnsw::measures(*similarity),
            hnsw::measures(*distance),
            turns(*turn),
        ensures
            match self {
                VectorIndex::Brute(b) => r@ == top_hits(
                    self@.ids,
                    similarities_of(*similarity, *q, self.stored()),
                    k as nat,
                ),
                VectorIndex::Hnsw(h) => {
                    &&& self@.ids.len() == 0 ==> r@.len() == 0
                    &&& self@.ids.len() != 0 && k != 0 ==> r@.len() != 0
                    &&& exists|hits: Seq<(NodeId, F32Bits)>| #[trigger]
                        h.answers(*distance, *q, k, hits) && turned(r@, hits, *turn)
                },
            },
    {
        match self {
            VectorIndex::Brute(b) => {
                let entries = b.entries();
                let mut similarities: Vec<F32Bits> = Vec::new();
                let n: usize = entries.len();
                for i in 0..n
                    invariant
                        n == entries@.len(),
                        hnsw::measures(*similarity),
                        similarities@ == similarities_of(*similarity, *q, entries@).take(i as int),
                {
                    let s: F32Bits = similarity(q, &entries[i].vec);
                    assert(call_ensures(*similarity, (q, &entries@[i as int].vec), s));
                    similarities.push(s);
                    assert(similarities@ =~= similarities_of(*similarity, *q, entries@).take(i + 1));
                }
                assert(similarities@ =~= similarities_of(*similarity, *q, entries@));
                proof {
                    assert(entry_ids(entries@).len() == n);
                }
                b.search(&similarities, k)
            },
            VectorIndex::Hnsw(h) => {
                let hits = h.search(q, k, distance);
                let mut out: Vec<(NodeId, F32Bits)> = Vec::new();
                let n: usize = hits.len();
                for i in 0..n
                    invariant
                        n == hits@.len(),
                        turns(*turn),
                        out@.len() == i,
                        forall|j: int|
                            0 <= j < i ==> (#[trigger] out@[j]).0 == hits@[j].0 && call_ensures(
                                *turn,
                                (hits@[j].1,),
                                out@[j].1,
                            ),
                {
                    let (id, d): (NodeId, F32Bits) = hits[i];
                    let s: F32Bits = turn(d);
                    assert(call_ensures(*turn, (d,), s));
                    out.push((id, s));
                }
                assert(turned(out@, hits@, *turn));
                assert(h.answers(*distance, *q, k, hits@));
                out
            },
        }
    }
}

// ---------------------------------------------------------------------------
// Laws
// ---------------------------------------------------------------------------

/// Inserting a vector again changes nothing.
pub proof fn upsert_vector_idempotent(ix: IndexV, id: NodeId, vec: Seq<F32Bits>)
    ensures
        with_vector(with_vector(ix, id, vec), id, vec) == with_vector(ix, id, vec),
{
    assert(ix.vecs.insert(id, vec).insert(id, vec) =~= ix.vecs.insert(id, vec));
}

/// Replacing a vector neither adds nor moves an entry.
pub proof fn replacing_keeps_places(ix: IndexV, id: NodeId, vec: Seq<F32Bits>)
    requires
        ix.vecs.contains_key(id),
    ensures
        with_vector(ix, id, vec).ids == ix.ids,
        with_vector(ix, id, vec).vecs.dom() == ix.vecs.dom(),
{
    assert(ix.vecs.insert(id, vec).dom() =~= ix.vecs.dom());
}

/// The hits of a search come in order: none is less similar than a later one.
pub proof fn nearest_come_first(ids: Seq<NodeId>, similarities: Seq<F32Bits>, k: nat, i: int, j: int)
    requires
        ids.len() == similarities.len() <= usize::MAX,
        0 <= i <= j < top_hits(ids, similarities, k).len(),
    ensures
        top_hits(ids, similarities, k).len() == (if k < ids.len() {
            k
        } else {
            ids.len()
        }),
        rank::order_of(top_hits(ids, similarities, k)[i].1) >= rank::order_of(
            top_hits(ids, similarities, k)[j].1,
        ),
{
    let keys = rank::order_keys(similarities);
    rank::lemma_ranking_exists(keys);
    let order = rank::ranking(keys);
    assert(order.contains(order[i]) && order.contains(order[j]));
    if i < j {
        assert(rank::before(keys, order[i], order[j]));
    }
}

/// What a search leaves out is not more similar than anything among its hits.
pub proof fn nothing_nearer_is_left_out(
    ids: Seq<NodeId>,
    similarities: Seq<F32Bits>,
    k: nat,
    x: int,
    i: int,
)
    requires
        ids.len() == similarities.len() <= usize::MAX,
        0 <= x < ids.len(),
        !top_hits(ids, similarities, k).contains((ids[x], similarities[x])),
        0 <= i < top_hits(ids, similarities, k).len(),
    ensures
        rank::order_of(top_hits(ids, similarities, k)[i].1) >= rank::order_of(similarities[x]),
{
    let keys = rank::order_keys(similarities);
    rank::lemma_ranking_exists(keys);
    let order = rank::ranking(keys);
    let hits = top_hits(ids, similarities, k);
    assert(order.contains(x as usize));
    let at = choose|at: int| 0 <= at < order.len() && order[at] == x as usize;
    if at < hits.len() {
        assert(hits[at] == (ids[x], similarities[x]));
    }
    assert(order.contains(order[i]));
    assert(rank::before(keys, order[i], order[at]));
}

/// A vector that is put in is there afterwards, and no other one changes; a new one comes behind
/// all the others.
pub proof fn vectors_are_kept(ix: IndexV, id: NodeId, vec: Seq<F32Bits>, other: NodeId)
    ensures
        with_vector(ix, id, vec).vecs.contains_key(id),
        with_vector(ix, id, vec).vecs[id] == vec,
        other != id ==> with_vector(ix, id, vec).vecs.contains_key(other) == ix.vecs.contains_key(
            other,
        ) && with_vector(ix, id, vec).vecs[other] == ix.vecs[other],
        !ix.vecs.contains_key(id) ==> with_vector(ix, id, vec).ids == ix.ids + seq![id],
{
    assert(ix.ids.push(id) =~= ix.ids + seq![id]);
}

/// Every hit is an id of the index with its own similarity.
pub proof fn hits_carry_their_similarity(ids: Seq<NodeId>, similarities: Seq<F32Bits>, k: nat, i: int)
    requires
        ids.len() == similarities.len() <= usize::MAX,
        0 <= i < top_hits(ids, similarities, k).len(),
    ensures
        exists|x: int|
            0 <= x < ids.len() && top_hits(ids, similarities, k)[i] == (
                #[trigger] ids[x],
                similarities[x],
            ),
{
    let keys = rank::order_keys(similarities);
    rank::lemma_ranking_exists(keys);
    let order = rank::ranking(keys);
    assert(order.contains(order[i]));
    let x = order[i] as int;
    assert(top_hits(ids, similarities, k)[i] == (ids[x], similarities[x]));
}

} // verus!
