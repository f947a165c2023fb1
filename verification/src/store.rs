//! The store's state: a graph and an index, changed by records that are logged first.
//!
//! A batch of records is appended to the write-ahead log and synced; only then is it applied.
//! On opening, the state is rebuilt from what was last saved and the log is replayed over it.
//! Replaying records that were saved already does no harm, because applying them again changes
//! nothing.

use vstd::bytes::{u128_from_le_bytes, u128_to_le_bytes, u32_from_le_bytes, u32_to_le_bytes};
use vstd::prelude::*;
use vstd::slice::slice_subrange;

use crate::digest;
use crate::graph;
use crate::graph::{GraphV, MemGraph};
use crate::index;
use crate::index::{BruteForceIndex, IndexV};
use crate::model;
use crate::model::{append_bytes, Edge, EdgeV, F32Bits, Node, NodeId, NodeV};
use crate::records::{Mutation, MutationV};
use crate::text;

verus! {

// ---------------------------------------------------------------------------
// Records
// ---------------------------------------------------------------------------

/// One durable record.
pub enum WalRecord {
    Node(Node),
    Edge(Edge),
    Vector(NodeId, Vec<F32Bits>),
}

/// What a record says.
#[verifier::ext_equal]
pub enum WalRecordV {
    Node(NodeV),
    Edge(EdgeV),
    Vector(NodeId, Seq<F32Bits>),
}

impl View for WalRecord {
    type V = WalRecordV;

    open spec fn view(&self) -> WalRecordV {
        match self {
            WalRecord::Node(n) => WalRecordV::Node(n@),
            WalRecord::Edge(e) => WalRecordV::Edge(e@),
            WalRecord::Vector(id, v) => WalRecordV::Vector(*id, v@),
        }
    }
}

/// The views of a list of records.
pub open spec fn record_views(v: Seq<WalRecord>) -> Seq<WalRecordV> {
    v.map_values(|r: WalRecord| r@)
}

/// The texts of a plan that are to be embedded, in order.
pub open spec fn texts_to_embed(plan: Seq<MutationV>) -> Seq<Seq<char>>
    decreases plan.len(),
{
    if plan.len() == 0 {
        Seq::empty()
    } else {
        match plan.last() {
            MutationV::Embed(_, t) => texts_to_embed(plan.drop_last()).push(t),
            _ => texts_to_embed(plan.drop_last()),
        }
    }
}

/// The record that a mutation becomes, where `vector` embeds its text.
pub open spec fn resolved_one(m: MutationV, vector: Seq<F32Bits>) -> WalRecordV {
    match m {
        MutationV::Node(n) => WalRecordV::Node(n),
        MutationV::Edge(e) => WalRecordV::Edge(e),
        MutationV::Embed(id, _) => WalRecordV::Vector(id, vector),
    }
}

/// The records of a plan, where `vectors` embeds its texts in order.
pub open spec fn resolved(plan: Seq<MutationV>, vectors: Seq<Seq<F32Bits>>) -> Seq<WalRecordV> {
    Seq::new(
        plan.len(),
        |i: int| resolved_one(plan[i], vectors[texts_to_embed(plan.take(i)).len() as int]),
    )
}

/// The views of a list of vectors.
pub open spec fn vector_views(v: Seq<Vec<F32Bits>>) -> Seq<Seq<F32Bits>> {
    v.map_values(|x: Vec<F32Bits>| x@)
}

/// The texts of a plan that are to be embedded, in order.
pub fn embed_texts(plan: &Vec<Mutation>) -> (r: Vec<String>)
    ensures
        text::string_views(r@) == texts_to_embed(crate::records::plan_view(plan@)),
{
    let ghost ps = crate::records::plan_view(plan@);
    let mut out: Vec<String> = Vec::new();
    let n: usize = plan.len();
    assert(ps.take(0) =~= Seq::empty());
    assert(text::string_views(out@) =~= Seq::empty());
    for i in 0..n
        invariant
            n == plan@.len(),
            ps == crate::records::plan_view(plan@),
            text::string_views(out@) == texts_to_embed(ps.take(i as int)),
    {
        assert(ps.take(i + 1).drop_last() =~= ps.take(i as int));
        assert(ps.take(i + 1).last() == plan@[i as int]@);
        match &plan[i] {
            Mutation::Embed(_, t) => {
                let ghost before = out@;
                out.push(t.clone());
                assert(text::string_views(out@) =~= text::string_views(before).push(t@));
            },
            _ => {},
        }
    }
    assert(ps.take(n as int) =~= ps);
    out
}

/// Copies a vector.
pub fn copy_vector(v: &Vec<F32Bits>) -> (r: Vec<F32Bits>)
    ensures
        r@ == v@,
{
    let mut out: Vec<F32Bits> = Vec::new();
    let n: usize = v.len();
    for i in 0..n
        invariant
            n == v@.len(),
            out@ == v@.take(i as int),
    {
        out.push(v[i]);
        assert(v@.take(i + 1) =~= v@.take(i as int).push(v@[i as int]));
    }
    assert(v@.take(n as int) =~= v@);
    out
}

proof fn lemma_texts_monotone(plan: Seq<MutationV>, n: int)
    requires
        0 <= n <= plan.len(),
    ensures
        texts_to_embed(plan.take(n)).len() <= texts_to_embed(plan).len(),
    decreases plan.len() - n,
{
    if n < plan.len() {
        assert(plan.take(n + 1).drop_last() =~= plan.take(n));
        lemma_texts_monotone(plan, n + 1);
    } else {
        assert(plan.take(n) =~= plan);
    }
}

/// Puts embeddings into a plan. `vectors` embeds the texts of the plan, in order.
pub fn resolve(plan: Vec<Mutation>, vectors: &Vec<Vec<F32Bits>>) -> (r: Vec<WalRecord>)
    requires
        vectors@.len() == texts_to_embed(crate::records::plan_view(plan@)).len(),
    ensures
        record_views(r@) == resolved(crate::records::plan_view(plan@), vector_views(vectors@)),
{
    let ghost ps = crate::records::plan_view(plan@);
    let ghost vs = vector_views(vectors@);
    let ghost all = plan@;
    let mut out: Vec<WalRecord> = Vec::new();
    let mut used: usize = 0;
    let total: usize = vectors.len();
    assert(ps.take(0) =~= Seq::empty());
    for m in it: plan
        invariant
            it.seq() == all,
            total == vectors@.len(),
            ps == crate::records::plan_view(all),
            vs == vector_views(vectors@),
            vectors@.len() == texts_to_embed(ps).len(),
            out@.len() == it.index(),
            used == texts_to_embed(ps.take(it.index() as int)).len(),
            forall|j: int|
                0 <= j < it.index() ==> (#[trigger] out@[j])@ == resolved(ps, vs)[j],
    {
        let ghost i = it.index() as int;
        assert(m@ == ps[i]);
        assert(ps.take(i + 1).drop_last() =~= ps.take(i));
        assert(ps.take(i + 1).last() == ps[i]);
        proof {
            lemma_texts_monotone(ps, i + 1);
        }
        let rec = match m {
            Mutation::Node(n) => WalRecord::Node(n),
            Mutation::Edge(e) => WalRecord::Edge(e),
            Mutation::Embed(id, _) => {
                let v = copy_vector(&vectors[used]);
                assert(v@ == vs[used as int]);
                used += 1;
                WalRecord::Vector(id, v)
            },
        };
        assert(rec@ == resolved(ps, vs)[i]);
        out.push(rec);
    }
    assert(record_views(out@) =~= resolved(ps, vs));
    out
}

// ---------------------------------------------------------------------------
// State
// ---------------------------------------------------------------------------

/// What a store holds in memory.
#[verifier::ext_equal]
pub struct StoreV {
    pub graph: GraphV,
    pub index: IndexV,
}

/// The store that holds nothing.
pub open spec fn empty_store() -> StoreV {
    StoreV {
        graph: GraphV { nodes: Map::empty(), order: Seq::empty(), edges: Seq::empty() },
        index: index::empty_index(),
    }
}

/// The state after a record.
pub open spec fn applied(s: StoreV, r: WalRecordV) -> StoreV {
    match r {
        WalRecordV::Node(n) => StoreV { graph: graph::with_node(s.graph, n), ..s },
        WalRecordV::Edge(e) => StoreV { graph: graph::with_edge(s.graph, e), ..s },
        WalRecordV::Vector(id, v) => StoreV { index: index::with_vector(s.index, id, v), ..s },
    }
}

/// The state after a list of records.
pub open spec fn applied_all(s: StoreV, recs: Seq<WalRecordV>) -> StoreV
    decreases recs.len(),
{
    if recs.len() == 0 {
        s
    } else {
        applied(applied_all(s, recs.drop_last()), recs.last())
    }
}

/// How many of some records are nodes.
pub open spec fn nodes_in(recs: Seq<WalRecordV>) -> nat
    decreases recs.len(),
{
    if recs.len() == 0 {
        0
    } else {
        nodes_in(recs.drop_last()) + if recs.last() is Node {
            1nat
        } else {
            0
        }
    }
}

/// How many of some records are edges.
pub open spec fn edges_in(recs: Seq<WalRecordV>) -> nat
    decreases recs.len(),
{
    if recs.len() == 0 {
        0
    } else {
        edges_in(recs.drop_last()) + if recs.last() is Edge {
            1nat
        } else {
            0
        }
    }
}

/// Whether the graph can take the nodes and the edges of some records.
pub open spec fn has_room(s: StoreV, recs: Seq<WalRecordV>) -> bool {
    s.graph.order.len() + nodes_in(recs) <= u32::MAX && s.graph.edges.len() + edges_in(recs)
        <= u32::MAX
}

proof fn lemma_counts_grow(recs: Seq<WalRecordV>, n: int)
    requires
        0 <= n <= recs.len(),
    ensures
        nodes_in(recs.take(n)) <= nodes_in(recs),
        edges_in(recs.take(n)) <= edges_in(recs),
    decreases recs.len() - n,
{
    if n < recs.len() {
        assert(recs.take(n + 1).drop_last() =~= recs.take(n));
        lemma_counts_grow(recs, n + 1);
    } else {
        assert(recs.take(n) =~= recs);
    }
}

/// A graph and an index.
pub struct Store {
    pub graph: MemGraph,
    pub index: BruteForceIndex,
}

impl View for Store {
    type V = StoreV;

    open spec fn view(&self) -> StoreV {
        StoreV { graph: self.graph@, index: self.index@ }
    }
}

impl Store {
    /// The indices of both parts are consistent.
    pub open spec fn wf(self) -> bool {
        self.graph.wf() && self.index.wf()
    }

    /// An empty store.
    pub fn new() -> (r: Store)
        ensures
            r.wf(),
            r@ == empty_store(),
    {
        let r = Store { graph: MemGraph::new(), index: BruteForceIndex::new() };
        assert(r@ =~= empty_store());
        r
    }

    /// Applies a record.
    pub fn apply(&mut self, rec: WalRecord)
        requires
            old(self).wf(),
            has_room(old(self)@, seq![rec@]),
        ensures
            final(self).wf(),
            final(self)@ == applied(old(self)@, rec@),
    {
        assert(nodes_in(seq![rec@]) == if rec@ is Node {
            1nat
        } else {
            0
        }) by {
            assert(seq![rec@].drop_last() =~= Seq::empty());
            reveal_with_fuel(nodes_in, 2);
        }
        assert(edges_in(seq![rec@]) == if rec@ is Edge {
            1nat
        } else {
            0
        }) by {
            assert(seq![rec@].drop_last() =~= Seq::empty());
            reveal_with_fuel(edges_in, 2);
        }
        match rec {
            WalRecord::Node(n) => self.graph.upsert_node(n),
            WalRecord::Edge(e) => self.graph.upsert_edge(e),
            WalRecord::Vector(id, v) => self.index.upsert(id, v),
        }
    }

    /// Applies a batch of records that has been logged.
    pub fn commit(&mut self, recs: Vec<WalRecord>)
        requires
            old(self).wf(),
            has_room(old(self)@, record_views(recs@)),
        ensures
            final(self).wf(),
            final(self)@ == applied_all(old(self)@, record_views(recs@)),
            final(self)@.graph.order.len() <= old(self)@.graph.order.len() + nodes_in(
                record_views(recs@),
            ),
            final(self)@.graph.edges.len() <= old(self)@.graph.edges.len() + edges_in(
                record_views(recs@),
            ),
    {
        let ghost s = self@;
        let ghost all = recs@;
        let ghost rs = record_views(recs@);
        assert(rs.take(0) =~= Seq::empty());
        for rec in it: recs
            invariant
                it.seq() == all,
                rs == record_views(all),
                self.wf(),
                has_room(s, rs),
                self@ == applied_all(s, rs.take(it.index() as int)),
                self@.graph.order.len() <= s.graph.order.len() + nodes_in(
                    rs.take(it.index() as int),
                ),
                self@.graph.edges.len() <= s.graph.edges.len() + edges_in(
                    rs.take(it.index() as int),
                ),
        {
            let ghost i = it.index() as int;
            assert(rs.take(i + 1).drop_last() =~= rs.take(i));
            assert(rs.take(i + 1).last() == rec@);
            proof {
                lemma_counts_grow(rs, i + 1);
                assert(seq![rec@].drop_last() =~= Seq::empty());
                reveal_with_fuel(nodes_in, 2);
                reveal_with_fuel(edges_in, 2);
            }
            self.apply(rec);
        }
        assert(rs.take(all.len() as int) =~= rs);
    }
}

// ---------------------------------------------------------------------------
// Vectors as bytes
// ---------------------------------------------------------------------------

/// A vector as bytes: each number's bits, little end first.
pub open spec fn vector_bytes(v: Seq<F32Bits>) -> Seq<u8>
    decreases v.len(),
{
    if v.len() == 0 {
        Seq::empty()
    } else {
        vector_bytes(v.drop_last()) + vstd::bytes::spec_u32_to_le_bytes(v.last())
    }
}

/// The vector in bytes; nothing where their number is not a multiple of four.
pub open spec fn bytes_vector(b: Seq<u8>) -> Option<Seq<F32Bits>> {
    if b.len() % 4 == 0 {
        Some(
            Seq::new(
                b.len() / 4,
                |i: int| vstd::bytes::spec_u32_from_le_bytes(b.subrange(4 * i, 4 * i + 4)),
            ),
        )
    } else {
        None
    }
}

/// Encodes a vector.
pub fn vec_to_bytes(v: &[F32Bits]) -> (r: Vec<u8>)
    ensures
        r@ == vector_bytes(v@),
{
    let mut out: Vec<u8> = Vec::new();
    let n: usize = v.len();
    assert(v@.take(0) =~= Seq::empty());
    for i in 0..n
        invariant
            n == v@.len(),
            out@ == vector_bytes(v@.take(i as int)),
    {
        append_bytes(&mut out, &u32_to_le_bytes(v[i]));
        assert(v@.take(i + 1).drop_last() =~= v@.take(i as int));
    }
    assert(v@.take(n as int) =~= v@);
    out
}

/// Decodes a vector; nothing where the bytes are not whole numbers.
pub fn bytes_to_vec(b: &[u8]) -> (r: Option<Vec<F32Bits>>)
    ensures
        match r {
            Some(v) => bytes_vector(b@) == Some(v@),
            None => bytes_vector(b@) is None,
        },
{
    let n: usize = b.len();
    if n % 4 != 0 {
        return None;
    }
    let m: usize = n / 4;
    let mut out: Vec<F32Bits> = Vec::new();
    for i in 0..m
        invariant
            n == b@.len(),
            n == 4 * m,
            out@.len() == i,
            forall|j: int|
                0 <= j < i ==> #[trigger] out@[j] == vstd::bytes::spec_u32_from_le_bytes(
                    b@.subrange(4 * j, 4 * j + 4),
                ),
    {
        out.push(u32_from_le_bytes(slice_subrange(b, 4 * i, 4 * i + 4)));
    }
    assert(out@ =~= bytes_vector(b@)->0);
    Some(out)
}

// ---------------------------------------------------------------------------
// Keys of edges
// ---------------------------------------------------------------------------

/// The bytes that identify an edge: its ends and its kind.
pub open spec fn edge_preimage(e: EdgeV) -> Seq<u8> {
    vstd::bytes::spec_u128_to_le_bytes(e.from) + vstd::bytes::spec_u128_to_le_bytes(e.to)
        + vstd::utf8::encode_utf8(e.kind.name())
}

/// The key under which an edge is saved.
pub open spec fn edge_key_of(e: EdgeV) -> u128 {
    vstd::bytes::spec_u128_from_le_bytes(
        digest::blake3_digest(edge_preimage(e))@.subrange(0, 16),
    )
}

/// The key under which an edge is saved.
pub fn edge_key(e: &Edge) -> (r: u128)
    ensures
        r == edge_key_of(e@),
{
    let mut bytes: Vec<u8> = Vec::new();
    append_bytes(&mut bytes, &u128_to_le_bytes(e.from));
    append_bytes(&mut bytes, &u128_to_le_bytes(e.to));
    append_bytes(&mut bytes, e.kind.tag().as_bytes());
    assert(bytes@ =~= edge_preimage(e@));
    let d = digest::blake3_hash(&bytes);
    u128_from_le_bytes(slice_subrange(&d, 0, 16))
}

// ---------------------------------------------------------------------------
// Opening
// ---------------------------------------------------------------------------

/// Which embedder made a set of vectors.
pub struct EmbedderMeta {
    pub id: String,
    pub dim: usize,
}

/// Why a store does not open.
#[derive(Debug, Clone, Copy, PartialEq, Eq, Structural)]
pub enum OpenError {
    /// The bytes of a vector are not whole numbers; how many there are.
    BadVector(usize),
    /// The saved vectors were made by another embedder than the active one.
    EmbedderMismatch,
}

/// Whether two embedders differ.
pub open spec fn differs(a: EmbedderMeta, b: EmbedderMeta) -> bool {
    a.id@ != b.id@ || a.dim != b.dim
}

/// What is read of a saved store.
pub struct Saved {
    pub nodes: Vec<Node>,
    pub edges: Vec<Edge>,
    /// The vectors as bytes, by node.
    pub vectors: Vec<(NodeId, Vec<u8>)>,
    /// The records of the log.
    pub log: Vec<WalRecord>,
    /// The embedder that made the vectors, where that was saved.
    pub embedder: Option<EmbedderMeta>,
}

/// Nodes as records.
pub open spec fn node_records(v: Seq<Node>) -> Seq<WalRecordV> {
    v.map_values(|n: Node| WalRecordV::Node(n@))
}

/// Edges as records.
pub open spec fn edge_records(v: Seq<Edge>) -> Seq<WalRecordV> {
    v.map_values(|e: Edge| WalRecordV::Edge(e@))
}

/// Vectors as records.
pub open spec fn vector_records(v: Seq<(NodeId, Vec<u8>)>) -> Seq<WalRecordV> {
    v.map_values(
        |x: (NodeId, Vec<u8>)|
            WalRecordV::Vector(
                x.0,
                match bytes_vector(x.1@) {
                    Some(y) => y,
                    None => Seq::empty(),
                },
            ),
    )
}

/// The records that rebuild a saved store: the nodes, the edges, the vectors, then the log.
pub open spec fn saved_records(s: Saved) -> Seq<WalRecordV> {
    node_records(s.nodes@) + edge_records(s.edges@) + vector_records(s.vectors@) + record_views(
        s.log@,
    )
}

/// Whether the vectors are all whole.
pub open spec fn vectors_whole(v: Seq<(NodeId, Vec<u8>)>) -> bool {
    forall|i: int| 0 <= i < v.len() ==> (#[trigger] v[i]).1@.len() % 4 == 0
}

/// Whether a number is the length of the first vector that is not whole.
pub open spec fn first_broken(v: Seq<(NodeId, Vec<u8>)>, n: usize) -> bool {
    exists|i: int|
        0 <= i < v.len() && (#[trigger] v[i]).1@.len() == n && n % 4 != 0 && vectors_whole(v.take(i))
}

impl Store {
    /// Rebuilds a saved store and replays its log, for an active embedder.
    pub fn rebuild(saved: Saved, active: &EmbedderMeta) -> (r: Result<Store, OpenError>)
        requires
            has_room(empty_store(), saved_records(saved)),
        ensures
            match r {
                Ok(s) => s.wf() && s@ == applied_all(empty_store(), saved_records(saved))
                    && vectors_whole(saved.vectors@) && !(s@.index.ids.len() != 0 && (
                saved.embedder matches Some(m) && differs(m, *active))),
                Err(OpenError::BadVector(n)) => first_broken(saved.vectors@, n),
                Err(OpenError::EmbedderMismatch) => vectors_whole(saved.vectors@) && (
                saved.embedder matches Some(m) && differs(m, *active)) && applied_all(
                    empty_store(),
                    saved_records(saved),
                ).index.ids.len() != 0,
            },
    {
        let ghost all = saved_records(saved);
        let mut recs: Vec<WalRecord> = Vec::new();
        match decode_vectors(&saved.vectors) {
            Ok(decoded) => {
                recs = gather(saved.nodes, saved.edges, decoded, saved.log, Ghost(saved.vectors@));
            },
            Err(n) => {
                return Err(OpenError::BadVector(n));
            },
        }
        assert(record_views(recs@) == all);
        let mut s = Store::new();
        s.commit(recs);
        if !s.index.is_empty() {
            match &saved.embedder {
                Some(m) => {
                    if !text::same_str(m.id.as_str(), active.id.as_str()) || m.dim != active.dim {
                        return Err(OpenError::EmbedderMismatch);
                    }
                },
                None => {},
            }
        }
        Ok(s)
    }
}

fn decode_vectors(vectors: &Vec<(NodeId, Vec<u8>)>) -> (r: Result<Vec<(NodeId, Vec<F32Bits>)>, usize>)
    ensures
        match r {
            Ok(v) => vectors_whole(vectors@) && v@.len() == vectors@.len() && forall|i: int|
                0 <= i < v@.len() ==> (#[trigger] v@[i]).0 == vectors@[i].0 && bytes_vector(
                    vectors@[i].1@,
                ) == Some(v@[i].1@),
            Err(n) => first_broken(vectors@, n),
        },
{
    let mut out: Vec<(NodeId, Vec<F32Bits>)> = Vec::new();
    let n: usize = vectors.len();
    for i in 0..n
        invariant
            n == vectors@.len(),
            out@.len() == i,
            forall|j: int| 0 <= j < i ==> (#[trigger] vectors@[j]).1@.len() % 4 == 0,
            forall|j: int|
                0 <= j < i ==> (#[trigger] out@[j]).0 == vectors@[j].0 && bytes_vector(
                    vectors@[j].1@,
                ) == Some(out@[j].1@),
    {
        match bytes_to_vec(&vectors[i].1) {
            Some(v) => {
                out.push((vectors[i].0, v));
            },
            None => {
                let len: usize = vectors[i].1.len();
                assert(vectors_whole(vectors@.take(i as int)));
                assert(vectors@[i as int].1@.len() == len);
                return Err(len);
            },
        }
    }
    Ok(out)
}

fn gather(
    nodes: Vec<Node>,
    edges: Vec<Edge>,
    vectors: Vec<(NodeId, Vec<F32Bits>)>,
    log: Vec<WalRecord>,
    Ghost(bytes): Ghost<Seq<(NodeId, Vec<u8>)>>,
) -> (r: Vec<WalRecord>)
    requires
        vectors@.len() == bytes.len(),
        forall|i: int|
            0 <= i < vectors@.len() ==> (#[trigger] vectors@[i]).0 == bytes[i].0 && bytes_vector(
                bytes[i].1@,
            ) == Some(vectors@[i].1@),
    ensures
        record_views(r@) == node_records(nodes@) + edge_records(edges@) + vector_records(bytes)
            + record_views(log@),
{
    let ghost (ns, es, vs, ls) = (nodes@, edges@, vectors@, log@);
    let mut out: Vec<WalRecord> = Vec::new();
    for x in it: nodes
        invariant
            it.seq() == ns,
            record_views(out@) == node_records(ns.take(it.index() as int)),
    {
        let ghost before = out@;
        let ghost i = it.index() as int;
        out.push(WalRecord::Node(x));
        assert(node_records(ns.take(i + 1)) =~= node_records(ns.take(i)).push(
            WalRecordV::Node(x@),
        ));
        assert(record_views(out@) =~= record_views(before).push(WalRecordV::Node(x@)));
    }
    assert(ns.take(ns.len() as int) =~= ns);
    let ghost p1 = record_views(out@);
    assert(p1 + edge_records(es.take(0)) =~= p1);
    for x in it: edges
        invariant
            it.seq() == es,
            record_views(out@) == p1 + edge_records(es.take(it.index() as int)),
    {
        let ghost before = out@;
        let ghost i = it.index() as int;
        out.push(WalRecord::Edge(x));
        assert(edge_records(es.take(i + 1)) =~= edge_records(es.take(i)).push(
            WalRecordV::Edge(x@),
        ));
        assert(record_views(out@) =~= record_views(before).push(WalRecordV::Edge(x@)));
        assert(record_views(out@) =~= p1 + edge_records(es.take(i + 1)));
    }
    assert(es.take(es.len() as int) =~= es);
    let ghost p2 = record_views(out@);
    assert(p2 + vector_records(bytes.take(0)) =~= p2);
    for x in it: vectors
        invariant
            it.seq() == vs,
            vs.len() == bytes.len(),
            forall|i: int|
                0 <= i < vs.len() ==> (#[trigger] vs[i]).0 == bytes[i].0 && bytes_vector(
                    bytes[i].1@,
                ) == Some(vs[i].1@),
            record_views(out@) == p2 + vector_records(bytes.take(it.index() as int)),
    {
        let ghost before = out@;
        let ghost i = it.index() as int;
        assert(x == vs[i]);
        let (id, v) = x;
        out.push(WalRecord::Vector(id, v));
        assert(vector_records(bytes.take(i + 1)) =~= vector_records(bytes.take(i)).push(
            WalRecordV::Vector(id, v@),
        ));
        assert(record_views(out@) =~= record_views(before).push(WalRecordV::Vector(id, v@)));
        assert(record_views(out@) =~= p2 + vector_records(bytes.take(i + 1)));
    }
    assert(bytes.take(bytes.len() as int) =~= bytes);
    let ghost p3 = record_views(out@);
    let mut log = log;
    let ghost before = out@;
    out.append(&mut log);
    assert(record_views(out@) =~= p3 + record_views(ls));
    out
}

// ---------------------------------------------------------------------------
// Laws
// ---------------------------------------------------------------------------

/// Every text of a plan that is to be embedded is handed out, in order.
pub proof fn all_texts_are_embedded(plan: Seq<MutationV>)
    ensures
        texts_to_embed(plan) == plan.filter_map(
            |m: MutationV|
                match m {
                    MutationV::Embed(_, t) => Some(t),
                    _ => None,
                },
        ),
    decreases plan.len(),
{
    if plan.len() != 0 {
        all_texts_are_embedded(plan.drop_last());
    }
}

proof fn lemma_texts_before(plan: Seq<MutationV>, i: int)
    requires
        0 <= i < plan.len(),
    ensures
        texts_to_embed(plan.take(i)).len() <= texts_to_embed(plan).len(),
        plan[i] matches MutationV::Embed(id, t) ==> texts_to_embed(plan.take(i)).len()
            < texts_to_embed(plan).len() && texts_to_embed(plan)[texts_to_embed(
            plan.take(i),
        ).len() as int] == t,
    decreases plan.len(),
{
    let init = plan.drop_last();
    if i < init.len() {
        lemma_texts_before(init, i);
        assert(init.take(i) =~= plan.take(i));
        assert(init[i] == plan[i]);
    } else {
        assert(plan.take(i) =~= init);
    }
}

/// Nodes and edges are written as they are planned, and each text is replaced by its own
/// vector.
pub proof fn each_text_gets_its_vector(plan: Seq<MutationV>, vectors: Seq<Seq<F32Bits>>, i: int)
    requires
        0 <= i < plan.len(),
        vectors.len() == texts_to_embed(plan).len(),
    ensures
        resolved(plan, vectors).len() == plan.len(),
        plan[i] matches MutationV::Node(n) ==> resolved(plan, vectors)[i] == WalRecordV::Node(n),
        plan[i] matches MutationV::Edge(e) ==> resolved(plan, vectors)[i] == WalRecordV::Edge(e),
        plan[i] matches MutationV::Embed(id, t) ==> exists|k: int|
            0 <= k < vectors.len() && #[trigger] texts_to_embed(plan)[k] == t && resolved(
                plan,
                vectors,
            )[i] == WalRecordV::Vector(id, vectors[k]),
{
    lemma_texts_before(plan, i);
    if let MutationV::Embed(id, t) = plan[i] {
        let k = texts_to_embed(plan.take(i)).len() as int;
        assert(texts_to_embed(plan)[k] == t);
        assert(resolved(plan, vectors)[i] == WalRecordV::Vector(id, vectors[k]));
    }
}

/// A record changes what it speaks of and nothing else: a node or an edge leaves the vectors
/// alone, and a vector the graph. Afterwards a node and a vector are there.
pub proof fn records_change_what_they_speak_of(s: StoreV, n: NodeV, e: EdgeV, id: NodeId, v: Seq<F32Bits>)
    ensures
        applied(s, WalRecordV::Node(n)).index == s.index,
        applied(s, WalRecordV::Node(n)).graph.nodes.contains_key(n.id),
        applied(s, WalRecordV::Node(n)).graph.edges == s.graph.edges,
        !s.graph.nodes.contains_key(n.id) ==> applied(s, WalRecordV::Node(n)).graph.nodes[n.id] == n,
        applied(s, WalRecordV::Edge(e)).index == s.index,
        applied(s, WalRecordV::Edge(e)).graph.nodes == s.graph.nodes,
        applied(s, WalRecordV::Edge(e)).graph == graph::with_edge(s.graph, e),
        applied(s, WalRecordV::Vector(id, v)).graph == s.graph,
        applied(s, WalRecordV::Vector(id, v)).index.vecs.contains_key(id),
        applied(s, WalRecordV::Vector(id, v)).index.vecs[id] == v,
{
}

/// Records are applied one after the other, in their order.
pub proof fn records_are_applied_in_order(s: StoreV, a: Seq<WalRecordV>, r: WalRecordV)
    ensures
        applied_all(s, Seq::empty()) == s,
        applied_all(s, a + seq![r]) == applied(applied_all(s, a), r),
{
    assert((a + seq![r]).drop_last() =~= a);
    assert((a + seq![r]).last() == r);
}

/// How many records are nodes, and how many are edges.
pub proof fn records_are_counted(recs: Seq<WalRecordV>)
    ensures
        nodes_in(recs) == recs.filter(|r: WalRecordV| r is Node).len(),
        edges_in(recs) == recs.filter(|r: WalRecordV| r is Edge).len(),
    decreases recs.len(),
{
    reveal(Seq::filter);
    if recs.len() != 0 {
        records_are_counted(recs.drop_last());
    }
}

/// A vector takes four bytes for each number, in order.
pub proof fn vectors_take_four_bytes_a_number(v: Seq<F32Bits>, i: int)
    requires
        0 <= i < v.len(),
    ensures
        vector_bytes(v).len() == 4 * v.len(),
        vector_bytes(v).subrange(4 * i, 4 * i + 4) == vstd::bytes::spec_u32_to_le_bytes(v[i]),
    decreases v.len(),
{
    let init = v.drop_last();
    vstd::bytes::lemma_auto_spec_u32_to_from_le_bytes();
    let last = vstd::bytes::spec_u32_to_le_bytes(v.last());
    if init.len() != 0 {
        vectors_take_four_bytes_a_number(init, 0);
    } else {
        assert(vector_bytes(init).len() == 0);
    }
    if i < init.len() {
        vectors_take_four_bytes_a_number(init, i);
        assert(vector_bytes(v).subrange(4 * i, 4 * i + 4) =~= vector_bytes(init).subrange(
            4 * i,
            4 * i + 4,
        ));
        assert(init[i] == v[i]);
    } else {
        assert(vector_bytes(v).subrange(4 * i, 4 * i + 4) =~= last);
    }
}

/// What is saved is read as it was saved: every node, every edge and every vector, and then
/// what the log holds.
pub proof fn all_that_was_saved_is_read(s: Saved, i: int)
    ensures
        0 <= i < s.nodes@.len() ==> saved_records(s).contains(WalRecordV::Node(s.nodes@[i]@)),
        0 <= i < s.edges@.len() ==> saved_records(s).contains(WalRecordV::Edge(s.edges@[i]@)),
        0 <= i < s.vectors@.len() ==> (bytes_vector(s.vectors@[i].1@) matches Some(v)
            ==> saved_records(s).contains(WalRecordV::Vector(s.vectors@[i].0, v))),
        0 <= i < s.log@.len() ==> saved_records(s).contains(s.log@[i]@) && saved_records(s).last()
            == s.log@.last()@,
        saved_records(s).len() == s.nodes@.len() + s.edges@.len() + s.vectors@.len() + s.log@.len(),
{
    let all = saved_records(s);
    let (a, b, c) = (s.nodes@.len() as int, s.edges@.len() as int, s.vectors@.len() as int);
    if 0 <= i < s.nodes@.len() {
        assert(all[i] == WalRecordV::Node(s.nodes@[i]@));
    }
    if 0 <= i < s.edges@.len() {
        assert(all[a + i] == WalRecordV::Edge(s.edges@[i]@));
    }
    if 0 <= i < s.vectors@.len() {
        assert(all[a + b + i] == vector_records(s.vectors@)[i]);
    }
    if 0 <= i < s.log@.len() {
        assert(all[a + b + c + i] == s.log@[i]@);
    }
}

/// The key of an edge is the beginning of the digest of its ends and its kind.
pub proof fn edge_keys_are_digests(e: EdgeV)
    ensures
        edge_key_of(e) == vstd::bytes::spec_u128_from_le_bytes(
            digest::blake3_digest(
                vstd::bytes::spec_u128_to_le_bytes(e.from) + vstd::bytes::spec_u128_to_le_bytes(e.to)
                    + vstd::utf8::encode_utf8(e.kind.name()),
            )@.subrange(0, 16),
        ),
{
}

/// Two embedders are the same where both their ids and their dimensions are.
pub proof fn embedders_are_known_by_id_and_dimension(a: EmbedderMeta, b: EmbedderMeta)
    ensures
        !differs(a, b) <==> a.id@ == b.id@ && a.dim == b.dim,
{
}

/// Bytes are a vector only where their number is a multiple of four.
pub proof fn broken_vectors_are_noticed(b: Seq<u8>, v: Seq<(NodeId, Vec<u8>)>, n: usize)
    ensures
        b.len() % 4 != 0 <==> bytes_vector(b) is None,
        b.len() % 4 == 0 ==> 4 * bytes_vector(b)->0.len() == b.len(),
        first_broken(v, n) ==> !vectors_whole(v) && n % 4 != 0,
        vectors_whole(v) <==> forall|i: int|
            0 <= i < v.len() ==> bytes_vector((#[trigger] v[i]).1@) is Some,
{
}

/// What a store says: all that it holds.
pub proof fn store_views_say_all(x: Store)
    ensures
        x@.graph == x.graph@,
        x@.index == x.index@,
{
}

/// What a record says: all that it holds.
pub proof fn record_views_say_all(n: Node, e: Edge, id: NodeId, v: Vec<F32Bits>)
    ensures
        WalRecord::Node(n)@ == WalRecordV::Node(n@),
        WalRecord::Edge(e)@ == WalRecordV::Edge(e@),
        WalRecord::Vector(id, v)@ == WalRecordV::Vector(id, v@),
{
}

/// Viewing a list keeps all its items, in their order.
pub proof fn record_views_keep_all(v: Seq<WalRecord>, i: int)
    requires
        0 <= i < v.len(),
    ensures
        record_views(v).len() == v.len(),
        record_views(v)[i] == v[i]@,
{
}

/// Viewing a list keeps all its items, in their order.
pub proof fn vector_views_keep_all(v: Seq<Vec<F32Bits>>, i: int)
    requires
        0 <= i < v.len(),
    ensures
        vector_views(v).len() == v.len(),
        vector_views(v)[i] == v[i]@,
{
}

} // verus!
