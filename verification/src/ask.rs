//! Retrieval: "what do we already know about X?"
//!
//! A recall gathers candidates in passes (by similarity, by one hop in the graph from the
//! strongest of them, by exact name), and falls back to a lexical ranking. It says which nodes
//! are to be scored and what each score depends on; the floating-point formulas are the
//! caller's. Every result carries the provenance that can be cited.

use vstd::prelude::*;

use crate::bm25;
use crate::bm25::{DocV, StatsV};
use crate::board;
use crate::board::{Board, BoardV, Hit, Why};
use crate::decimal;
use crate::graph;
use crate::graph::{GraphV, MemGraph};
use crate::index;
use crate::index::{BruteForceIndex, IndexV};
use crate::model;
use crate::model::{F32Bits, Node, NodeId, NodeKind, NodeV, Provenance, ProvenanceV};
use crate::rank;
use crate::text;

verus! {

// ---------------------------------------------------------------------------
// Kinds
// ---------------------------------------------------------------------------

/// The ranking prior of a kind: what answers "what do we know" weighs more than a code atom.
/// The bits of 1, 0.9, 0.85, 0.8, 0.65, 0.6, 0.5, 0.4 and 0.3.
pub open spec fn weight_of(kind: NodeKind) -> F32Bits {
    match kind {
        NodeKind::Decision | NodeKind::Implementation => 0x3f80_0000,
        NodeKind::DesignDoc => 0x3f66_6666,
        NodeKind::Turn => 0x3f59_999a,
        NodeKind::Concept => 0x3f4c_cccd,
        NodeKind::Session => 0x3f26_6666,
        NodeKind::Pattern | NodeKind::DebtSignal => 0x3f19_999a,
        NodeKind::Repo | NodeKind::Module | NodeKind::Commit => 0x3f00_0000,
        NodeKind::File | NodeKind::Manifest | NodeKind::Package | NodeKind::Framework
        | NodeKind::Tooling | NodeKind::DataSource | NodeKind::Person => 0x3ecc_cccd,
        NodeKind::Symbol => 0x3e99_999a,
    }
}

/// The ranking prior of a kind.
pub fn kind_weight(kind: NodeKind) -> (r: F32Bits)
    ensures
        r == weight_of(kind),
{
    match kind {
        NodeKind::Decision | NodeKind::Implementation => 0x3f80_0000,
        NodeKind::DesignDoc => 0x3f66_6666,
        NodeKind::Turn => 0x3f59_999a,
        NodeKind::Concept => 0x3f4c_cccd,
        NodeKind::Session => 0x3f26_6666,
        NodeKind::Pattern | NodeKind::DebtSignal => 0x3f19_999a,
        NodeKind::Repo | NodeKind::Module | NodeKind::Commit => 0x3f00_0000,
        NodeKind::File | NodeKind::Manifest | NodeKind::Package | NodeKind::Framework
        | NodeKind::Tooling | NodeKind::DataSource | NodeKind::Person => 0x3ecc_cccd,
        NodeKind::Symbol => 0x3e99_999a,
    }
}

/// Whether a kind is a memory: chat and value nodes, not code atoms.
pub open spec fn is_memory(kind: NodeKind) -> bool {
    match kind {
        NodeKind::Decision | NodeKind::Implementation | NodeKind::Turn | NodeKind::Session
        | NodeKind::DesignDoc | NodeKind::Concept | NodeKind::Pattern | NodeKind::DebtSignal => true,
        _ => false,
    }
}

/// Whether a node of a kind may be brought up by similarity.
pub fn is_semantic_memory(kind: NodeKind) -> (r: bool)
    ensures
        r == is_memory(kind),
{
    match kind {
        NodeKind::Decision | NodeKind::Implementation | NodeKind::Turn | NodeKind::Session
        | NodeKind::DesignDoc | NodeKind::Concept | NodeKind::Pattern | NodeKind::DebtSignal => true,
        _ => false,
    }
}

/// Whether the degree of a node of a kind counts: for what was decided or built it says how
/// much it shaped, for the others it is mere fan-out.
pub open spec fn is_central(kind: NodeKind) -> bool {
    kind == NodeKind::Decision || kind == NodeKind::Implementation
}

/// The degree of a node, where it counts.
pub open spec fn degree_of(g: GraphV, n: NodeV) -> Option<usize> {
    if is_central(n.kind) {
        Some(graph::incident(g.edges, n.id).len() as usize)
    } else {
        None
    }
}

/// The degree of a node, where it counts.
pub fn counted_degree(g: &MemGraph, n: &Node) -> (r: Option<usize>)
    requires
        g.wf(),
    ensures
        r == degree_of(g@, n@),
{
    if n.kind == NodeKind::Decision || n.kind == NodeKind::Implementation {
        Some(g.degree(n.id))
    } else {
        None
    }
}

// ---------------------------------------------------------------------------
// What is to be scored
// ---------------------------------------------------------------------------

/// A candidate and what its score depends on.
#[derive(Debug, Clone, Copy)]
pub struct Task {
    pub id: NodeId,
    pub why: Why,
    /// Whether it comes along as the neighbour of a seed.
    pub hop: bool,
    /// The similarity of a semantic candidate, or the score of the seed of a neighbour; zero
    /// for a lexical one.
    pub basis: F32Bits,
    /// The prior of its kind.
    pub weight: F32Bits,
    pub updated_ms: i64,
    /// Its degree, where that counts.
    pub degree: Option<usize>,
}

/// The task of a node.
pub open spec fn task_of(g: GraphV, n: NodeV, why: Why, hop: bool, basis: F32Bits) -> Task {
    Task {
        id: n.id,
        why,
        hop,
        basis,
        weight: weight_of(n.kind),
        updated_ms: n.last_updated_ms,
        degree: degree_of(g, n),
    }
}

fn make_task(g: &MemGraph, n: &Node, why: Why, hop: bool, basis: F32Bits) -> (r: Task)
    requires
        g.wf(),
    ensures
        r == task_of(g@, n@, why, hop, basis),
{
    Task {
        id: n.id,
        why,
        hop,
        basis,
        weight: kind_weight(n.kind),
        updated_ms: n.last_updated_ms,
        degree: counted_degree(g, n),
    }
}

/// The similarity that is too weak to count, and every one below it: 0.01.
pub const WEAK: F32Bits = 0x3c23_d70a;

/// Whether a similarity is too weak to count.
pub open spec fn is_weak(similarity: F32Bits) -> bool {
    !rank::is_nan(similarity) && rank::order_of(similarity) <= rank::order_of(WEAK)
}

/// Whether a hit of the vector index is a candidate.
pub open spec fn is_candidate(g: GraphV, hit: (NodeId, F32Bits)) -> bool {
    !is_weak(hit.1) && g.nodes.contains_key(hit.0) && is_memory(g.nodes[hit.0].kind)
}

/// The semantic candidates among the hits of the vector index.
pub open spec fn semantic_tasks_of(g: GraphV, hits: Seq<(NodeId, F32Bits)>) -> Seq<Task>
    decreases hits.len(),
{
    if hits.len() == 0 {
        Seq::empty()
    } else {
        let before = semantic_tasks_of(g, hits.drop_last());
        let hit = hits.last();
        if is_candidate(g, hit) {
            before.push(task_of(g, g.nodes[hit.0], Why::Semantic, false, hit.1))
        } else {
            before
        }
    }
}

/// The semantic candidates among the hits of the vector index.
pub fn semantic_tasks(g: &MemGraph, hits: &Vec<(NodeId, F32Bits)>) -> (r: Vec<Task>)
    requires
        g.wf(),
    ensures
        r@ == semantic_tasks_of(g@, hits@),
{
    let mut out: Vec<Task> = Vec::new();
    let n: usize = hits.len();
    assert(hits@.take(0) =~= Seq::empty());
    for i in 0..n
        invariant
            n == hits@.len(),
            g.wf(),
            out@ == semantic_tasks_of(g@, hits@.take(i as int)),
    {
        assert(hits@.take(i + 1).drop_last() =~= hits@.take(i as int));
        let (id, similarity): (NodeId, F32Bits) = hits[i];
        let key: i64 = rank::order_key(similarity);
        let weak: bool = key != -0x1_0000_0000i64 && key <= rank::order_key(WEAK);
        if !weak {
            match g.get(id) {
                Some(node) => {
                    if is_semantic_memory(node.kind) {
                        out.push(make_task(g, node, Why::Semantic, false, similarity));
                    }
                },
                None => {},
            }
        }
    }
    assert(hits@.take(n as int) =~= hits@);
    out
}

/// How many of the strongest candidates are expanded.
pub const SEEDS: usize = 3;

/// The scores of a board, in order.
pub open spec fn scores_of(b: BoardV) -> Seq<F32Bits> {
    b.ids.map_values(|id: NodeId| b.best[id].0)
}

/// The strongest hits of a board, the strongest first.
pub open spec fn seeds_of(b: BoardV) -> Seq<Hit> {
    let order = rank::ranking(rank::order_keys(scores_of(b)));
    Seq::new(
        if SEEDS < order.len() {
            SEEDS as nat
        } else {
            order.len()
        },
        |i: int| board::hits_of(b)[order[i] as int],
    )
}

/// The strongest hits of a board, the strongest first.
fn seeds(b: &Board) -> (r: Vec<Hit>)
    requires
        b.wf(),
    ensures
        r@ == seeds_of(b@),
{
    let hits = b.hits();
    let mut scores: Vec<F32Bits> = Vec::new();
    let n: usize = hits.len();
    for i in 0..n
        invariant
            n == hits@.len() == b@.ids.len(),
            hits@ == board::hits_of(b@),
            scores@ == scores_of(b@).take(i as int),
    {
        scores.push(hits[i].score);
        assert(scores@ =~= scores_of(b@).take(i + 1));
    }
    assert(scores@ =~= scores_of(b@));
    let keys = rank::order_keys_of(&scores);
    let order = rank::rank(&keys);
    let m: usize = if SEEDS < order.len() {
        SEEDS
    } else {
        order.len()
    };
    let mut out: Vec<Hit> = Vec::new();
    for i in 0..m
        invariant
            m <= order@.len(),
            rank::is_ranking(keys@, order@),
            keys@.len() == hits@.len(),
            out@.len() == i,
            forall|j: int| 0 <= j < i ==> #[trigger] out@[j] == hits@[order@[j] as int],
    {
        let at: usize = order[i];
        assert(order@.contains(at));
        out.push(hits[at]);
    }
    assert(out@ =~= seeds_of(b@));
    out
}

/// The neighbours of a seed as candidates, in ascending order of their ids; each is there for
/// the reason of the seed.
pub open spec fn hop_tasks(g: GraphV, near: Seq<NodeV>, seed: Hit) -> Seq<Task>
    decreases near.len(),
{
    if near.len() == 0 {
        Seq::empty()
    } else {
        let before = hop_tasks(g, near.drop_last(), seed);
        if near.last().id == seed.id {
            before
        } else {
            before.push(task_of(g, near.last(), seed.why, true, seed.score))
        }
    }
}

/// The nodes one step away from a node, and itself; none where it is not there.
pub open spec fn one_hop(g: GraphV, id: NodeId) -> Seq<NodeV> {
    if g.nodes.contains_key(id) {
        graph::nodes_of(g.nodes, graph::within(g.edges, id, 1))
    } else {
        Seq::empty()
    }
}

/// The candidates one step away from the seeds.
pub open spec fn graph_tasks_of(g: GraphV, seeds: Seq<Hit>) -> Seq<Task>
    decreases seeds.len(),
{
    if seeds.len() == 0 {
        Seq::empty()
    } else {
        graph_tasks_of(g, seeds.drop_last()) + hop_tasks(
            g,
            one_hop(g, seeds.last().id),
            seeds.last(),
        )
    }
}

/// The candidates one step away from the seeds.
pub fn graph_tasks(g: &MemGraph, seeds: &Vec<Hit>) -> (r: Vec<Task>)
    requires
        g.wf(),
    ensures
        r@ == graph_tasks_of(g@, seeds@),
{
    let mut out: Vec<Task> = Vec::new();
    let n: usize = seeds.len();
    assert(seeds@.take(0) =~= Seq::empty());
    for i in 0..n
        invariant
            n == seeds@.len(),
            g.wf(),
            out@ == graph_tasks_of(g@, seeds@.take(i as int)),
    {
        assert(seeds@.take(i + 1).drop_last() =~= seeds@.take(i as int));
        let seed: Hit = seeds[i];
        let ghost before = out@;
        let (near, _edges) = g.neighbors(seed.id, 1);
        let ghost views = graph::node_views(near@);
        assert(views =~= one_hop(g@, seed.id));
        let m: usize = near.len();
        assert(views.take(0) =~= Seq::empty());
        assert(out@ =~= before + hop_tasks(g@, views.take(0), seed));
        for j in 0..m
            invariant
                m == near@.len(),
                g.wf(),
                views == graph::node_views(near@),
                out@ == before + hop_tasks(g@, views.take(j as int), seed),
        {
            assert(views.take(j + 1).drop_last() =~= views.take(j as int));
            assert(views.take(j + 1).last() == near@[j as int]@);
            if near[j].id != seed.id {
                out.push(make_task(g, &near[j], seed.why, true, seed.score));
                assert(out@ =~= before + hop_tasks(g@, views.take(j + 1), seed));
            }
        }
        assert(views.take(m as int) =~= views);
    }
    assert(seeds@.take(n as int) =~= seeds@);
    out
}

/// Whether some token occurs in a text.
pub open spec fn mentions_any(s: Seq<char>, tokens: Seq<Seq<char>>) -> bool {
    exists|i: int| 0 <= i < tokens.len() && text::occurs(s, #[trigger] tokens[i])
}

/// Whether a node is a code atom with a token in its name.
pub open spec fn is_named(n: NodeV, tokens: Seq<Seq<char>>) -> bool {
    !is_memory(n.kind) && mentions_any(text::lowered(n.label), tokens)
}

/// The code atoms with a token in their names.
pub open spec fn lexical_tasks_of(g: GraphV, ids: Seq<NodeId>, tokens: Seq<Seq<char>>) -> Seq<Task>
    decreases ids.len(),
{
    if ids.len() == 0 {
        Seq::empty()
    } else {
        let before = lexical_tasks_of(g, ids.drop_last(), tokens);
        let n = g.nodes[ids.last()];
        if is_named(n, tokens) {
            before.push(task_of(g, n, Why::Lexical, false, 0))
        } else {
            before
        }
    }
}

fn has_token(s: &[char], tokens: &Vec<Vec<char>>) -> (r: bool)
    ensures
        r == mentions_any(s@, text::views(tokens@)),
{
    let n: usize = tokens.len();
    for i in 0..n
        invariant
            n == tokens@.len(),
            forall|j: int|
                0 <= j < i ==> !text::occurs(s@, #[trigger] text::views(tokens@)[j]),
    {
        match text::find(s, &tokens[i]) {
            Some(_at) => {
                assert(text::occurs(s@, text::views(tokens@)[i as int]));
                return true;
            },
            None => {
                assert(!text::occurs(s@, text::views(tokens@)[i as int]));
            },
        }
    }
    false
}

/// The code atoms with a token in their names.
pub fn lexical_tasks(g: &MemGraph, tokens: &Vec<Vec<char>>) -> (r: Vec<Task>)
    requires
        g.wf(),
    ensures
        r@ == lexical_tasks_of(g@, g@.order, text::views(tokens@)),
{
    let ids = g.ids();
    let mut out: Vec<Task> = Vec::new();
    let n: usize = ids.len();
    assert(ids@.take(0) =~= Seq::empty());
    proof {
        g.shape();
    }
    for i in 0..n
        invariant
            n == ids@.len(),
            ids@ == g@.order,
            g.wf(),
            forall|id: NodeId| #[trigger] g@.nodes.contains_key(id) <==> g@.order.contains(id),
            out@ == lexical_tasks_of(g@, ids@.take(i as int), text::views(tokens@)),
    {
        assert(ids@.take(i + 1).drop_last() =~= ids@.take(i as int));
        assert(g@.order.contains(ids@[i as int]));
        match g.get(ids[i]) {
            Some(node) => {
                if !is_semantic_memory(node.kind) {
                    let label = text::lower(&text::chars_of(node.label.as_str()));
                    if has_token(&label, tokens) {
                        out.push(make_task(g, node, Why::Lexical, false, 0));
                    }
                }
            },
            None => {},
        }
    }
    assert(ids@.take(n as int) =~= ids@);
    out
}

/// The board after the scores of tasks.
pub open spec fn taken(b: BoardV, tasks: Seq<Task>, scores: Seq<F32Bits>) -> BoardV
    decreases tasks.len(),
{
    if tasks.len() == 0 {
        b
    } else {
        let t = tasks.last();
        board::bumped(taken(b, tasks.drop_last(), scores), t.id, scores[tasks.len() - 1], t.why)
    }
}

fn take_in(b: &mut Board, tasks: &Vec<Task>, scores: &Vec<F32Bits>)
    requires
        old(b).wf(),
        tasks@.len() == scores@.len(),
    ensures
        final(b).wf(),
        final(b)@ == taken(old(b)@, tasks@, scores@),
{
    let n: usize = tasks.len();
    assert(tasks@.take(0) =~= Seq::empty());
    for i in 0..n
        invariant
            n == tasks@.len() == scores@.len(),
            b.wf(),
            b@ == taken(old(b)@, tasks@.take(i as int), scores@),
    {
        assert(tasks@.take(i + 1).drop_last() =~= tasks@.take(i as int));
        b.bump(tasks[i].id, scores[i], tasks[i].why);
    }
    assert(tasks@.take(n as int) =~= tasks@);
}

// ---------------------------------------------------------------------------
// Results
// ---------------------------------------------------------------------------

/// One ranked piece of recalled memory.
pub struct Evidence {
    /// The id in decimal.
    pub id: String,
    pub score: F32Bits,
    pub kind: String,
    pub label: String,
    pub snippet: String,
    /// Why this surfaced: `semantic`, `lexical` or `recency`.
    pub why: &'static str,
    pub provenance: Option<Provenance>,
}

/// What a piece of evidence says.
#[verifier::ext_equal]
pub struct EvidenceV {
    pub id: Seq<char>,
    pub score: F32Bits,
    pub kind: Seq<char>,
    pub label: Seq<char>,
    pub snippet: Seq<char>,
    pub why: Seq<char>,
    pub provenance: Option<ProvenanceV>,
}

impl View for Evidence {
    type V = EvidenceV;

    open spec fn view(&self) -> EvidenceV {
        EvidenceV {
            id: self.id@,
            score: self.score,
            kind: self.kind@,
            label: self.label@,
            snippet: self.snippet@,
            why: self.why@,
            provenance: model::provenance_view(self.provenance),
        }
    }
}

/// The views of a list of evidence.
pub open spec fn evidence_views(v: Seq<Evidence>) -> Seq<EvidenceV> {
    v.map_values(|e: Evidence| e@)
}

/// What a recall answers.
pub struct RecallResult {
    pub query: String,
    /// Whether there was no vector index, so that only a lexical ranking was made.
    pub degraded: bool,
    pub results: Vec<Evidence>,
}

/// What a recall answers.
#[verifier::ext_equal]
pub struct RecallResultV {
    pub query: Seq<char>,
    pub degraded: bool,
    pub results: Seq<EvidenceV>,
}

impl View for RecallResult {
    type V = RecallResultV;

    open spec fn view(&self) -> RecallResultV {
        RecallResultV {
            query: self.query@,
            degraded: self.degraded,
            results: evidence_views(self.results@),
        }
    }
}

/// A text up to `n` characters, with an ellipsis where it is longer.
pub open spec fn clipped(s: Seq<char>, n: int) -> Seq<char> {
    if s.len() > n {
        s.take(n).push('\u{2026}')
    } else {
        s
    }
}

/// A text up to `n` characters, with an ellipsis where it is longer.
pub fn snippet(s: &str, n: usize) -> (r: String)
    ensures
        r@ == clipped(s@, n as int),
{
    let cs = text::chars_of(s);
    if cs.len() > n {
        let mut out = text::part(&cs, 0, n);
        assert(out@ =~= cs@.take(n as int));
        out.push('\u{2026}');
        text::string_of(&out)
    } else {
        text::string_of(&cs)
    }
}

/// The longest snippet, in characters.
pub const SNIPPET_MAX: usize = 240;

/// The snippet of a node: its summary, or else its body up to a limit, or else its label.
pub open spec fn snippet_of(n: NodeV) -> Seq<char> {
    if n.summary.len() != 0 {
        n.summary
    } else if n.body.len() != 0 {
        clipped(n.body, SNIPPET_MAX as int)
    } else {
        n.label
    }
}

/// The evidence of a hit on a node.
pub open spec fn evidence_of(n: NodeV, h: Hit) -> EvidenceV {
    EvidenceV {
        id: decimal::decimal(h.id as nat),
        score: h.score,
        kind: n.kind.title_of(),
        label: n.label,
        snippet: snippet_of(n),
        why: h.why.name(),
        provenance: n.provenance,
    }
}

/// The evidence of a hit; nothing where its node is not there.
pub fn evidence(g: &MemGraph, h: Hit) -> (r: Option<Evidence>)
    ensures
        match r {
            Some(e) => g@.nodes.contains_key(h.id) && e@ == evidence_of(g@.nodes[h.id], h),
            None => !g@.nodes.contains_key(h.id),
        },
{
    match g.get(h.id) {
        Some(n) => {
            let found: String = if !n.summary.as_str().is_empty() {
                n.summary.clone()
            } else if !n.body.as_str().is_empty() {
                snippet(n.body.as_str(), SNIPPET_MAX)
            } else {
                n.label.clone()
            };
            Some(
                Evidence {
                    id: decimal::id_text(h.id),
                    score: h.score,
                    kind: model::owned(n.kind.title()),
                    label: n.label.clone(),
                    snippet: found,
                    why: h.why.tag(),
                    provenance: model::copy_provenance(&n.provenance),
                },
            )
        },
        None => None,
    }
}

/// The end of the chain of supersessions above a node; nothing where it was never superseded
/// or the chain runs in a circle.
pub open spec fn head_of(g: GraphV, id: NodeId) -> Option<NodeId> {
    let sup = graph::superseders(g.edges);
    if exists|h: NodeId| graph::chain_head(sup, id, h) {
        Some(choose|h: NodeId| graph::chain_head(sup, id, h))
    } else {
        None
    }
}

/// Where the score of a hit and its reason go: to what superseded its node, where anything did.
pub open spec fn redirect(g: GraphV, h: Hit) -> Hit {
    match head_of(g, h.id) {
        Some(head) => Hit { id: head, ..h },
        None => h,
    }
}

/// The board of hits in which what is superseded gave its score to what superseded it.
pub open spec fn redirected(g: GraphV, hits: Seq<Hit>) -> BoardV
    decreases hits.len(),
{
    if hits.len() == 0 {
        board::empty_board()
    } else {
        let h = redirect(g, hits.last());
        board::bumped(redirected(g, hits.drop_last()), h.id, h.score, h.why)
    }
}

/// The hits whose nodes are there.
pub open spec fn present(g: GraphV, hits: Seq<Hit>) -> Seq<Hit>
    decreases hits.len(),
{
    if hits.len() == 0 {
        Seq::empty()
    } else {
        let before = present(g, hits.drop_last());
        if g.nodes.contains_key(hits.last().id) {
            before.push(hits.last())
        } else {
            before
        }
    }
}

/// The scores of hits.
pub open spec fn hit_scores(hits: Seq<Hit>) -> Seq<F32Bits> {
    hits.map_values(|h: Hit| h.score)
}

/// The evidence of the `k` best hits, the best first.
pub open spec fn best_evidence(g: GraphV, hits: Seq<Hit>, k: nat) -> Seq<EvidenceV> {
    let order = rank::ranking(rank::order_keys(hit_scores(hits)));
    Seq::new(
        if k < order.len() {
            k
        } else {
            order.len()
        },
        |i: int|
            evidence_of(g.nodes[hits[order[i] as int].id], hits[order[i] as int]),
    )
}

/// What a recall answers from a board.
pub open spec fn finalized(g: GraphV, b: BoardV, k: nat, query: Seq<char>, degraded: bool) -> RecallResultV {
    let fresh = present(g, board::hits_of(redirected(g, board::hits_of(b))));
    RecallResultV { query, degraded, results: best_evidence(g, fresh, k) }
}

/// Lets what supersedes take the place of what it superseded.
fn redirect_all(g: &MemGraph, hits: &Vec<Hit>) -> (r: Board)
    requires
        g.wf(),
    ensures
        r.wf(),
        r@ == redirected(g@, hits@),
{
    let mut fresh = Board::new();
    let n: usize = hits.len();
    assert(hits@.take(0) =~= Seq::empty());
    for i in 0..n
        invariant
            n == hits@.len(),
            g.wf(),
            fresh.wf(),
            fresh@ == redirected(g@, hits@.take(i as int)),
    {
        assert(hits@.take(i + 1).drop_last() =~= hits@.take(i as int));
        let h: Hit = hits[i];
        match g.superseder_of(h.id) {
            Some(head) => {
                proof {
                    let sup = graph::superseders(g@.edges);
                    let other = choose|x: NodeId| graph::chain_head(sup, h.id, x);
                    graph::chain_head_unique(sup, h.id, head, other);
                }
                fresh.bump(head, h.score, h.why);
            },
            None => {
                fresh.bump(h.id, h.score, h.why);
            },
        }
    }
    assert(hits@.take(n as int) =~= hits@);
    fresh
}

/// Resolves a board into ranked evidence. What was superseded is redirected to what replaced
/// it, which keeps the better score, so that a stale memory neither outranks nor hides it.
pub fn finalize(g: &MemGraph, b: &Board, k: usize, query: &str, degraded: bool) -> (r: RecallResult)
    requires
        g.wf(),
        b.wf(),
    ensures
        r@ == finalized(g@, b@, k as nat, query@, degraded),
{
    let fresh = redirect_all(g, b.hits());
    let all = fresh.hits();
    let mut found: Vec<Hit> = Vec::new();
    let mut scores: Vec<F32Bits> = Vec::new();
    let n: usize = all.len();
    assert(all@.take(0) =~= Seq::empty());
    for i in 0..n
        invariant
            n == all@.len(),
            found@ == present(g@, all@.take(i as int)),
            scores@ == hit_scores(found@),
            forall|j: int| 0 <= j < found@.len() ==> g@.nodes.contains_key((#[trigger] found@[j]).id),
    {
        assert(all@.take(i + 1).drop_last() =~= all@.take(i as int));
        let h: Hit = all[i];
        match g.get(h.id) {
            Some(_node) => {
                let ghost before = found@;
                found.push(h);
                scores.push(h.score);
                assert(scores@ =~= hit_scores(found@));
            },
            None => {},
        }
    }
    assert(all@.take(n as int) =~= all@);
    let keys = rank::order_keys_of(&scores);
    let order = rank::rank(&keys);
    let m: usize = if k < order.len() {
        k
    } else {
        order.len()
    };
    let mut results: Vec<Evidence> = Vec::new();
    for i in 0..m
        invariant
            m <= order@.len(),
            rank::is_ranking(keys@, order@),
            keys@.len() == found@.len(),
            forall|j: int| 0 <= j < found@.len() ==> g@.nodes.contains_key((#[trigger] found@[j]).id),
            results@.len() == i,
            forall|j: int|
                0 <= j < i ==> (#[trigger] results@[j])@ == evidence_of(
                    g@.nodes[found@[order@[j] as int].id],
                    found@[order@[j] as int],
                ),
    {
        let at: usize = order[i];
        assert(order@.contains(at));
        let h: Hit = found[at];
        assert(g@.nodes.contains_key(found@[at as int].id));
        match evidence(g, h) {
            Some(e) => {
                results.push(e);
            },
            None => {},
        }
    }
    let r = RecallResult { query: model::owned(query), degraded, results };
    assert(r@.results =~= best_evidence(g@, found@, k as nat));
    r
}

// ---------------------------------------------------------------------------
// The recall
// ---------------------------------------------------------------------------

/// What a recall waits for.
#[derive(Debug, Clone, Copy, PartialEq, Eq, Structural)]
pub enum Phase {
    /// The similarity of each indexed vector to the query.
    Similarities,
    /// The score of each semantic candidate.
    Semantic,
    /// The score of each graph candidate.
    Graph,
    /// The score of each lexical candidate.
    Lexical,
    /// The score of each document.
    Documents,
    /// Nothing: the result is there.
    Done,
}

/// A recall in progress.
pub struct Recall {
    query: String,
    k: usize,
    tokens: Vec<Vec<char>>,
    /// Whether there is no vector index.
    degraded: bool,
    phase: Phase,
    board: Board,
    tasks: Vec<Task>,
    stats: bm25::Stats,
    result: Option<RecallResult>,
}

/// Where a recall stands.
#[verifier::ext_equal]
pub struct RecallV {
    pub query: Seq<char>,
    pub k: nat,
    pub degraded: bool,
    pub phase: Phase,
    pub board: BoardV,
    pub tasks: Seq<Task>,
    pub stats: StatsV,
    pub result: Option<RecallResultV>,
}

/// The statistics of nothing.
pub open spec fn no_stats() -> StatsV {
    StatsV { n_docs: 1, total_len: 0, df: Seq::empty(), docs: Seq::empty() }
}

/// How many hits of the vector index are looked at: forty times `k`, and at least 256.
pub open spec fn pool_of(k: nat) -> nat {
    let wide = if k * 40 > usize::MAX {
        usize::MAX as nat
    } else {
        k * 40
    };
    if wide < 256 {
        256
    } else {
        wide
    }
}

/// A recall at its start: it asks for similarities where there is a vector index, and else
/// for the scores of the documents.
pub open spec fn begun(g: GraphV, ix: IndexV, query: Seq<char>, k: nat) -> RecallV {
    let degraded = ix.ids.len() == 0;
    RecallV {
        query,
        k,
        degraded,
        phase: if degraded {
            Phase::Documents
        } else {
            Phase::Similarities
        },
        board: board::empty_board(),
        tasks: Seq::empty(),
        stats: if degraded {
            bm25::stats_of(g, text::tokens(query))
        } else {
            no_stats()
        },
        result: None,
    }
}

/// The board of the documents whose scores are positive.
pub open spec fn kept_docs(docs: Seq<DocV>, scores: Seq<F32Bits>) -> BoardV
    decreases docs.len(),
{
    if docs.len() == 0 {
        board::empty_board()
    } else {
        let before = kept_docs(docs.drop_last(), scores);
        let s = scores[docs.len() - 1];
        if rank::exceeds(s, 0) {
            board::bumped(before, docs.last().id, s, Why::Lexical)
        } else {
            before
        }
    }
}

/// How many numbers a recall waits for.
pub open spec fn awaited(r: RecallV, ix: IndexV) -> nat {
    match r.phase {
        Phase::Similarities => ix.ids.len(),
        Phase::Semantic | Phase::Graph | Phase::Lexical => r.tasks.len(),
        Phase::Documents => r.stats.docs.len(),
        Phase::Done => 0,
    }
}

/// A recall that has its result.
pub open spec fn ended(r: RecallV, g: GraphV, b: BoardV) -> RecallV {
    RecallV {
        phase: Phase::Done,
        board: b,
        tasks: Seq::empty(),
        stats: no_stats(),
        result: Some(finalized(g, b, r.k, r.query, r.degraded)),
        ..r
    }
}

/// A recall after the numbers it waited for.
pub open spec fn advanced(r: RecallV, g: GraphV, ix: IndexV, numbers: Seq<F32Bits>) -> RecallV {
    match r.phase {
        Phase::Similarities => RecallV {
            phase: Phase::Semantic,
            tasks: semantic_tasks_of(g, index::top_hits(ix.ids, numbers, pool_of(r.k))),
            ..r
        },
        Phase::Semantic => {
            let b = taken(r.board, r.tasks, numbers);
            RecallV { phase: Phase::Graph, board: b, tasks: graph_tasks_of(g, seeds_of(b)), ..r }
        },
        Phase::Graph => RecallV {
            phase: Phase::Lexical,
            board: taken(r.board, r.tasks, numbers),
            tasks: lexical_tasks_of(g, g.order, text::tokens(r.query)),
            ..r
        },
        Phase::Lexical => {
            let b = taken(r.board, r.tasks, numbers);
            if b.ids.len() != 0 {
                ended(r, g, b)
            } else {
                RecallV {
                    phase: Phase::Documents,
                    board: b,
                    tasks: Seq::empty(),
                    stats: bm25::stats_of(g, text::tokens(r.query)),
                    ..r
                }
            }
        },
        Phase::Documents => ended(r, g, kept_docs(r.stats.docs, numbers)),
        Phase::Done => r,
    }
}

fn nothing_collected() -> (r: bm25::Stats)
    ensures
        r@ == no_stats(),
{
    let r = bm25::Stats { n_docs: 1, total_len: 0, df: Vec::new(), docs: Vec::new() };
    assert(r@ =~= no_stats());
    r
}

fn keep_docs(docs: &Vec<bm25::Doc>, scores: &Vec<F32Bits>) -> (r: Board)
    requires
        docs@.len() == scores@.len(),
    ensures
        r.wf(),
        r@ == kept_docs(bm25::doc_views(docs@), scores@),
{
    let mut b = Board::new();
    let ghost views = bm25::doc_views(docs@);
    let n: usize = docs.len();
    assert(views.take(0) =~= Seq::empty());
    for i in 0..n
        invariant
            n == docs@.len() == scores@.len(),
            views == bm25::doc_views(docs@),
            b.wf(),
            b@ == kept_docs(views.take(i as int), scores@),
    {
        assert(views.take(i + 1).drop_last() =~= views.take(i as int));
        assert(views.take(i + 1).last() == docs@[i as int]@);
        if rank::greater(scores[i], 0) {
            b.bump(docs[i].id, scores[i], Why::Lexical);
        }
    }
    assert(views.take(n as int) =~= views);
    b
}

fn copy_texts(v: &Vec<Vec<char>>) -> (r: Vec<Vec<char>>)
    ensures
        text::views(r@) == text::views(v@),
{
    let mut out: Vec<Vec<char>> = Vec::new();
    let n: usize = v.len();
    for i in 0..n
        invariant
            n == v@.len(),
            out@.len() == i,
            forall|j: int| 0 <= j < i ==> (#[trigger] out@[j])@ == v@[j]@,
    {
        let c = text::part(&v[i], 0, v[i].len());
        assert(c@ =~= v@[i as int]@);
        out.push(c);
    }
    assert(text::views(out@) =~= text::views(v@));
    out
}

impl View for Recall {
    type V = RecallV;

    closed spec fn view(&self) -> RecallV {
        RecallV {
            query: self.query@,
            k: self.k as nat,
            degraded: self.degraded,
            phase: self.phase,
            board: self.board@,
            tasks: self.tasks@,
            stats: self.stats@,
            result: match self.result {
                Some(x) => Some(x@),
                None => None,
            },
        }
    }
}

impl Recall {
    /// The tokens are those of the query, and the result is there when nothing is awaited.
    pub closed spec fn wf(self) -> bool {
        &&& text::views(self.tokens@) == text::tokens(self.query@)
        &&& self.board.wf()
        &&& self.phase == Phase::Done <==> self.result is Some
    }

    /// Starts a recall of the top `k` memories for a query.
    pub fn begin(g: &MemGraph, ix: &BruteForceIndex, query: &str, k: usize) -> (r: Recall)
        requires
            g.wf(),
        ensures
            r.wf(),
            r@ == begun(g@, ix@, query@, k as nat),
    {
        let tokens = text::tokenize(&text::chars_of(query));
        let degraded: bool = ix.is_empty();
        let stats = if degraded {
            bm25::collect(g, copy_texts(&tokens))
        } else {
            nothing_collected()
        };
        Recall {
            query: model::owned(query),
            k,
            tokens,
            degraded,
            phase: if degraded {
                Phase::Documents
            } else {
                Phase::Similarities
            },
            board: Board::new(),
            tasks: Vec::new(),
            stats,
            result: None,
        }
    }

    /// What the recall waits for.
    pub fn phase(&self) -> (r: Phase)
        ensures
            r == self@.phase,
    {
        self.phase
    }

    /// The candidates to be scored.
    pub fn tasks(&self) -> (r: &Vec<Task>)
        ensures
            r@ == self@.tasks,
    {
        &self.tasks
    }

    /// What the scores of the documents depend on.
    pub fn stats(&self) -> (r: &bm25::Stats)
        ensures
            r@ == self@.stats,
    {
        &self.stats
    }

    fn end(self, g: &MemGraph, b: Board) -> (r: Recall)
        requires
            self.wf(),
            g.wf(),
            b.wf(),
        ensures
            r.wf(),
            r@ == ended(self@, g@, b@),
    {
        let result = finalize(g, &b, self.k, self.query.as_str(), self.degraded);
        Recall {
            phase: Phase::Done,
            board: b,
            tasks: Vec::new(),
            stats: nothing_collected(),
            result: Some(result),
            ..self
        }
    }

    /// Goes on with the numbers that were awaited.
    pub fn advance(self, g: &MemGraph, ix: &BruteForceIndex, numbers: &Vec<F32Bits>) -> (r: Recall)
        requires
            self.wf(),
            g.wf(),
            numbers@.len() == awaited(self@, ix@),
        ensures
            r.wf(),
            r@ == advanced(self@, g@, ix@, numbers@),
    {
        match self.phase {
            Phase::Similarities => {
                let wide: usize = match self.k.checked_mul(40) {
                    Some(w) => w,
                    None => usize::MAX,
                };
                let pool: usize = if wide < 256 {
                    256
                } else {
                    wide
                };
                let hits = ix.search(numbers, pool);
                let tasks = semantic_tasks(g, &hits);
                Recall { phase: Phase::Semantic, tasks, ..self }
            },
            Phase::Semantic => {
                let mut board = self.board;
                take_in(&mut board, &self.tasks, numbers);
                let tasks = graph_tasks(g, &seeds(&board));
                Recall { phase: Phase::Graph, board, tasks, ..self }
            },
            Phase::Graph => {
                let mut board = self.board;
                take_in(&mut board, &self.tasks, numbers);
                let tasks = lexical_tasks(g, &self.tokens);
                Recall { phase: Phase::Lexical, board, tasks, ..self }
            },
            Phase::Lexical => {
                let mut board = self.board;
                take_in(&mut board, &self.tasks, numbers);
                if !board.is_empty() {
                    let done = Recall { board: Board::new(), ..self };
                    return done.end(g, board);
                }
                let stats = bm25::collect(g, copy_texts(&self.tokens));
                Recall { phase: Phase::Documents, board, tasks: Vec::new(), stats, ..self }
            },
            Phase::Documents => {
                let board = keep_docs(&self.stats.docs, numbers);
                self.end(g, board)
            },
            Phase::Done => self,
        }
    }

    /// The result, where nothing is awaited any more.
    pub fn into_result(self) -> (r: Option<RecallResult>)
        ensures
            self@.result == (match r {
                Some(x) => Some(x@),
                None => None,
            }),
    {
        self.result
    }
}

// ---------------------------------------------------------------------------
// Laws
// ---------------------------------------------------------------------------

/// A memory weighs more than a code atom, and a code atom is weighed down, not shut out.
pub proof fn memories_outweigh_code_atoms(memory: NodeKind, atom: NodeKind)
    requires
        is_memory(memory),
        !is_memory(atom),
    ensures
        rank::exceeds(weight_of(memory), weight_of(atom)),
        rank::exceeds(weight_of(atom), 0),
{
}

/// Only memories that are there are brought up by similarity, each with the similarity of a
/// hit that is not weak.
pub proof fn similarity_brings_up_memories(g: GraphV, hits: Seq<(NodeId, F32Bits)>, i: int)
    requires
        0 <= i < semantic_tasks_of(g, hits).len(),
    ensures
        exists|j: int|
            0 <= j < hits.len() && is_candidate(g, #[trigger] hits[j]) && semantic_tasks_of(g, hits)[i]
                == task_of(g, g.nodes[hits[j].0], Why::Semantic, false, hits[j].1),
    decreases hits.len(),
{
    let init = hits.drop_last();
    let before = semantic_tasks_of(g, init);
    if i < before.len() {
        similarity_brings_up_memories(g, init, i);
        let j = choose|j: int|
            0 <= j < init.len() && is_candidate(g, #[trigger] init[j]) && before[i] == task_of(
                g,
                g.nodes[init[j].0],
                Why::Semantic,
                false,
                init[j].1,
            );
        assert(hits[j] == init[j]);
    } else {
        assert(is_candidate(g, hits[hits.len() - 1]));
    }
}

proof fn lemma_top_of_chain(sup: Map<NodeId, NodeId>, id: NodeId, n: nat)
    requires
        !sup.contains_key(id),
        n >= 1,
    ensures
        graph::nth_superseder(sup, id, n) is None,
    decreases n,
{
    if n > 1 {
        lemma_top_of_chain(sup, id, (n - 1) as nat);
    } else {
        assert(graph::nth_superseder(sup, id, 0) == Some(id));
    }
}

/// What a hit is redirected to is itself not superseded.
pub proof fn redirection_is_final(g: GraphV, h: Hit)
    ensures
        head_of(g, redirect(g, h).id) is None,
{
    let sup = graph::superseders(g.edges);
    match head_of(g, h.id) {
        Some(head) => {
            assert(graph::chain_head(sup, h.id, head));
            assert forall|x: NodeId| !graph::chain_head(sup, head, x) by {
                if graph::chain_head(sup, head, x) {
                    let n = choose|n: nat|
                        n >= 1 && #[trigger] graph::nth_superseder(sup, head, n) == Some(x)
                            && !sup.contains_key(x);
                    lemma_top_of_chain(sup, head, n);
                }
            }
        },
        None => {},
    }
}

/// After redirection no node on the board is superseded.
pub proof fn redirected_board_is_current(g: GraphV, hits: Seq<Hit>, id: NodeId)
    requires
        redirected(g, hits).ids.contains(id),
    ensures
        head_of(g, id) is None,
    decreases hits.len(),
{
    let init = hits.drop_last();
    let before = redirected(g, init);
    let h = redirect(g, hits.last());
    redirection_is_final(g, hits.last());
    let ids = redirected(g, hits).ids;
    let i = choose|i: int| 0 <= i < ids.len() && ids[i] == id;
    if i < before.ids.len() {
        assert(before.ids[i] == id);
        redirected_board_is_current(g, init, id);
    } else {
        assert(id == h.id);
    }
}

/// Redirection loses no score: what a hit is redirected to is on the board, and not with a
/// lower score.
pub proof fn redirection_keeps_the_best(g: GraphV, hits: Seq<Hit>, i: int)
    requires
        0 <= i < hits.len(),
    ensures
        ({
            let b = redirected(g, hits);
            let h = redirect(g, hits[i]);
            b.best.contains_key(h.id) && !rank::exceeds(h.score, b.best[h.id].0)
        }),
    decreases hits.len(),
{
    let init = hits.drop_last();
    let before = redirected(g, init);
    let last = redirect(g, hits.last());
    board::bumping_keeps_the_best(before, last.id, last.score, last.why);
    if i < init.len() {
        redirection_keeps_the_best(g, init, i);
        assert(init[i] == hits[i]);
    }
}

proof fn lemma_present(g: GraphV, hits: Seq<Hit>, i: int)
    requires
        0 <= i < present(g, hits).len(),
    ensures
        g.nodes.contains_key(present(g, hits)[i].id),
        exists|j: int| 0 <= j < hits.len() && #[trigger] hits[j] == present(g, hits)[i],
    decreases hits.len(),
{
    let init = hits.drop_last();
    let before = present(g, init);
    if i < before.len() {
        lemma_present(g, init, i);
        let j = choose|j: int| 0 <= j < init.len() && #[trigger] init[j] == before[i];
        assert(hits[j] == before[i]);
    } else {
        assert(hits[hits.len() - 1] == present(g, hits)[i]);
    }
}

proof fn lemma_fewer(g: GraphV, hits: Seq<Hit>)
    ensures
        redirected(g, hits).ids.len() <= hits.len(),
    decreases hits.len(),
{
    if hits.len() != 0 {
        lemma_fewer(g, hits.drop_last());
    }
}

proof fn lemma_fewer_present(g: GraphV, hits: Seq<Hit>)
    ensures
        present(g, hits).len() <= hits.len(),
    decreases hits.len(),
{
    if hits.len() != 0 {
        lemma_fewer_present(g, hits.drop_last());
    }
}

/// Every result is a node that is there and that nothing supersedes.
pub proof fn results_are_current(
    g: GraphV,
    b: BoardV,
    k: nat,
    query: Seq<char>,
    degraded: bool,
    i: int,
)
    requires
        0 <= i < finalized(g, b, k, query, degraded).results.len(),
        b.ids.len() <= usize::MAX,
    ensures
        exists|id: NodeId|
            g.nodes.contains_key(id) && head_of(g, id) is None && finalized(
                g,
                b,
                k,
                query,
                degraded,
            ).results[i].id == #[trigger] decimal::decimal(id as nat),
{
    let board = redirected(g, board::hits_of(b));
    let all = board::hits_of(board);
    let fresh = present(g, all);
    let keys = rank::order_keys(hit_scores(fresh));
    let order = rank::ranking(keys);
    lemma_fewer(g, board::hits_of(b));
    lemma_fewer_present(g, all);
    rank::lemma_ranking_exists(keys);
    assert(order.contains(order[i]));
    let at = order[i] as int;
    lemma_present(g, all, at);
    let j = choose|j: int| 0 <= j < all.len() && #[trigger] all[j] == fresh[at];
    let id = fresh[at].id;
    assert(board.ids[j] == id);
    assert(board.ids.contains(id));
    redirected_board_is_current(g, board::hits_of(b), id);
    assert(finalized(g, b, k, query, degraded).results[i].id == decimal::decimal(id as nat));
}

/// The results are at most `k`, and the better ones come first.
pub proof fn results_are_ranked(g: GraphV, hits: Seq<Hit>, k: nat, i: int, j: int)
    requires
        hits.len() <= usize::MAX,
        0 <= i <= j < best_evidence(g, hits, k).len(),
    ensures
        best_evidence(g, hits, k).len() == (if k < hits.len() {
            k
        } else {
            hits.len()
        }),
        rank::order_of(best_evidence(g, hits, k)[i].score) >= rank::order_of(
            best_evidence(g, hits, k)[j].score,
        ),
{
    let keys = rank::order_keys(hit_scores(hits));
    let order = rank::ranking(keys);
    rank::lemma_ranking_exists(keys);
    assert(order.contains(order[i]) && order.contains(order[j]));
    assert(keys[order[i] as int] == rank::order_of(hits[order[i] as int].score));
    assert(keys[order[j] as int] == rank::order_of(hits[order[j] as int].score));
    if i < j {
        assert(rank::before(keys, order[i], order[j]));
    }
}

proof fn lemma_redirected_well_kept(g: GraphV, hits: Seq<Hit>)
    ensures
        board::well_kept(redirected(g, hits)),
    decreases hits.len(),
{
    if hits.len() == 0 {
        assert(board::well_kept(board::empty_board()));
    } else {
        lemma_redirected_well_kept(g, hits.drop_last());
        let h = redirect(g, hits.last());
        board::bumping_keeps_the_board(redirected(g, hits.drop_last()), h.id, h.score, h.why);
    }
}

/// Whether no node has two hits.
spec fn ids_differ(hits: Seq<Hit>) -> bool {
    forall|i: int, j: int|
        0 <= i < j < hits.len() ==> (#[trigger] hits[i]).id != (#[trigger] hits[j]).id
}

proof fn lemma_present_differ(g: GraphV, hits: Seq<Hit>)
    requires
        ids_differ(hits),
    ensures
        ids_differ(present(g, hits)),
    decreases hits.len(),
{
    if hits.len() != 0 {
        let init = hits.drop_last();
        let before = present(g, init);
        let all = present(g, hits);
        assert forall|i: int, j: int| 0 <= i < j < init.len() implies (#[trigger] init[i]).id != (
        #[trigger] init[j]).id by {
            assert(hits[i].id != hits[j].id);
        }
        lemma_present_differ(g, init);
        assert forall|i: int, j: int| 0 <= i < j < all.len() implies (#[trigger] all[i]).id != (
        #[trigger] all[j]).id by {
            if j < before.len() {
                assert(before[i].id != before[j].id);
            } else {
                lemma_present(g, init, i);
                let k = choose|k: int| 0 <= k < init.len() && #[trigger] init[k] == before[i];
                assert(hits[k].id != hits[hits.len() - 1].id);
            }
        }
    }
}

/// No node is among the results twice.
pub proof fn results_differ(
    g: GraphV,
    b: BoardV,
    k: nat,
    query: Seq<char>,
    degraded: bool,
    i: int,
    j: int,
)
    requires
        0 <= i < j < finalized(g, b, k, query, degraded).results.len(),
        b.ids.len() <= usize::MAX,
    ensures
        finalized(g, b, k, query, degraded).results[i].id != finalized(
            g,
            b,
            k,
            query,
            degraded,
        ).results[j].id,
{
    let board = redirected(g, board::hits_of(b));
    let all = board::hits_of(board);
    let fresh = present(g, all);
    let keys = rank::order_keys(hit_scores(fresh));
    let order = rank::ranking(keys);
    lemma_redirected_well_kept(g, board::hits_of(b));
    assert forall|x: int, y: int| 0 <= x < y < all.len() implies (#[trigger] all[x]).id != (
    #[trigger] all[y]).id by {
        assert(board.ids[x] != board.ids[y]);
    }
    lemma_present_differ(g, all);
    lemma_fewer(g, board::hits_of(b));
    lemma_fewer_present(g, all);
    rank::lemma_ranking_exists(keys);
    assert(order.contains(order[i]) && order.contains(order[j]));
    assert(rank::before(keys, order[i], order[j]));
    let (x, y) = (order[i] as int, order[j] as int);
    assert(x != y);
    assert(fresh[x].id != fresh[y].id);
    let r = finalized(g, b, k, query, degraded).results;
    assert(r[i].id == decimal::decimal(fresh[x].id as nat));
    assert(r[j].id == decimal::decimal(fresh[y].id as nat));
    if r[i].id == r[j].id {
        decimal::decimals_differ(fresh[x].id as nat, fresh[y].id as nat);
    }
}

/// How many steps a recall still takes at most.
pub open spec fn steps_left(p: Phase) -> nat {
    match p {
        Phase::Similarities => 5,
        Phase::Semantic => 4,
        Phase::Graph => 3,
        Phase::Lexical => 2,
        Phase::Documents => 1,
        Phase::Done => 0,
    }
}

/// Every step brings a recall nearer to its end, whatever the numbers are.
pub proof fn recall_ends(r: RecallV, g: GraphV, ix: IndexV, numbers: Seq<F32Bits>)
    requires
        r.phase != Phase::Done,
    ensures
        steps_left(advanced(r, g, ix, numbers).phase) < steps_left(r.phase),
        advanced(r, g, ix, numbers).phase == Phase::Done ==> advanced(r, g, ix, numbers).result
            is Some,
{
}

/// A recall answers the query it was asked, and it is degraded only where there is no vector
/// index.
pub proof fn recall_answers_the_query(
    g: GraphV,
    ix: IndexV,
    query: Seq<char>,
    k: nat,
    r: RecallV,
    numbers: Seq<F32Bits>,
)
    requires
        r.query == begun(g, ix, query, k).query,
        r.degraded == begun(g, ix, query, k).degraded,
        r.phase != Phase::Done,
    ensures
        advanced(r, g, ix, numbers).query == query,
        advanced(r, g, ix, numbers).degraded == (ix.ids.len() == 0),
        advanced(r, g, ix, numbers).phase == Phase::Done ==> (advanced(r, g, ix, numbers).result
            matches Some(x) && x.query == query && x.degraded == (ix.ids.len() == 0)),
{
}

/// Every result says why it surfaced: it is close in meaning, it holds words of the query, or
/// it is recent.
pub proof fn results_say_why(
    g: GraphV,
    b: BoardV,
    k: nat,
    query: Seq<char>,
    degraded: bool,
    i: int,
)
    requires
        0 <= i < finalized(g, b, k, query, degraded).results.len(),
    ensures
        ({
            let why = finalized(g, b, k, query, degraded).results[i].why;
            why == "semantic"@ || why == "lexical"@ || why == "recency"@
        }),
{
}

/// What comes along with a seed, and what a hit is redirected to, is there for the reason of
/// the seed or the hit.
pub proof fn reasons_are_handed_on(g: GraphV, near: Seq<NodeV>, seed: Hit, i: int)
    requires
        0 <= i < hop_tasks(g, near, seed).len(),
    ensures
        hop_tasks(g, near, seed)[i].why == seed.why,
        redirect(g, seed).why == seed.why,
    decreases near.len(),
{
    if i < hop_tasks(g, near.drop_last(), seed).len() {
        reasons_are_handed_on(g, near.drop_last(), seed, i);
    }
}

/// The priors of the kinds, as the bits of single-precision numbers: what was decided or built
/// weighs 1, a design document 0.9, a turn 0.85, a concept 0.8, a session 0.65, a pattern or a
/// sign of debt 0.6, the containers of code 0.5, its files and their like 0.4, a symbol 0.3.
pub proof fn priors_of_the_kinds(kind: NodeKind)
    ensures
        weight_of(kind) == 0x3f80_0000 <==> kind == NodeKind::Decision || kind
            == NodeKind::Implementation,
        weight_of(kind) == 0x3f66_6666 <==> kind == NodeKind::DesignDoc,
        weight_of(kind) == 0x3f59_999a <==> kind == NodeKind::Turn,
        weight_of(kind) == 0x3f4c_cccd <==> kind == NodeKind::Concept,
        weight_of(kind) == 0x3f26_6666 <==> kind == NodeKind::Session,
        weight_of(kind) == 0x3f19_999a <==> kind == NodeKind::Pattern || kind
            == NodeKind::DebtSignal,
        weight_of(kind) == 0x3f00_0000 <==> kind == NodeKind::Repo || kind == NodeKind::Module
            || kind == NodeKind::Commit,
        weight_of(kind) == 0x3e99_999a <==> kind == NodeKind::Symbol,
        weight_of(kind) == 0x3ecc_cccd <==> kind == NodeKind::File || kind == NodeKind::Manifest
            || kind == NodeKind::Package || kind == NodeKind::Framework || kind
            == NodeKind::Tooling || kind == NodeKind::DataSource || kind == NodeKind::Person,
{
}

/// Every hit on a memory that is more similar than 0.01 is a candidate, in the order of the
/// hits, and its score depends on the similarity of that very hit; no other hit is one.
pub proof fn similar_memories_are_candidates(g: GraphV, hits: Seq<(NodeId, F32Bits)>)
    ensures
        semantic_tasks_of(g, hits) == hits.filter_map(
            |hit: (NodeId, F32Bits)|
                if (0x3c23_d70a < hit.1 < 0x8000_0000 || hit.1 > 0xff80_0000)
                    && g.nodes.contains_key(hit.0) && (g.nodes[hit.0].kind == NodeKind::Decision || g.nodes[hit.0].kind == NodeKind::Implementation || g.nodes[hit.0].kind == NodeKind::Turn || g.nodes[hit.0].kind == NodeKind::Session || g.nodes[hit.0].kind == NodeKind::DesignDoc || g.nodes[hit.0].kind == NodeKind::Concept || g.nodes[hit.0].kind == NodeKind::Pattern || g.nodes[hit.0].kind == NodeKind::DebtSignal) {
                    Some(Task {
                    id: g.nodes[hit.0].id,
                    why: Why::Semantic,
                    hop: false,
                    basis: hit.1,
                    weight: weight_of(g.nodes[hit.0].kind),
                    updated_ms: g.nodes[hit.0].last_updated_ms,
                    degree: if g.nodes[hit.0].kind == NodeKind::Decision || g.nodes[hit.0].kind
                        == NodeKind::Implementation {
                        Some(graph::incident(g.edges, g.nodes[hit.0].id).len() as usize)
                    } else {
                        None
                    },
                })
                } else {
                    None
                },
        ),
    decreases hits.len(),
{
    if hits.len() != 0 {
        similar_memories_are_candidates(g, hits.drop_last());
    }
}

/// The similarity of every hit on a memory that is more similar than 0.01 is what the score of
/// its candidate depends on.
pub proof fn similarities_are_handed_on(g: GraphV, hits: Seq<(NodeId, F32Bits)>, j: int)
    requires
        0 <= j < hits.len(),
        0x3c23_d70a < hits[j].1 < 0x8000_0000 || hits[j].1 > 0xff80_0000,
        g.nodes.contains_key(hits[j].0),
        g.nodes[hits[j].0].id == hits[j].0,
        g.nodes[hits[j].0].kind == NodeKind::Decision || g.nodes[hits[j].0].kind == NodeKind::Implementation || g.nodes[hits[j].0].kind == NodeKind::Turn || g.nodes[hits[j].0].kind == NodeKind::Session || g.nodes[hits[j].0].kind == NodeKind::DesignDoc || g.nodes[hits[j].0].kind == NodeKind::Concept || g.nodes[hits[j].0].kind == NodeKind::Pattern || g.nodes[hits[j].0].kind == NodeKind::DebtSignal,
    ensures
        exists|i: int|
            0 <= i < semantic_tasks_of(g, hits).len() && (#[trigger] semantic_tasks_of(
                g,
                hits,
            )[i]).id == hits[j].0 && semantic_tasks_of(g, hits)[i].basis == hits[j].1
                && semantic_tasks_of(g, hits)[i].why == Why::Semantic && !semantic_tasks_of(
                g,
                hits,
            )[i].hop && semantic_tasks_of(g, hits)[i].updated_ms
                == g.nodes[hits[j].0].last_updated_ms,
    decreases hits.len(),
{
    let init = hits.drop_last();
    let before = semantic_tasks_of(g, init);
    let all = semantic_tasks_of(g, hits);
    if j < init.len() {
        assert(init[j] == hits[j]);
        similarities_are_handed_on(g, init, j);
        let i = choose|i: int|
            0 <= i < before.len() && (#[trigger] before[i]).id == hits[j].0 && before[i].basis
                == hits[j].1 && before[i].why == Why::Semantic && !before[i].hop
                && before[i].updated_ms == g.nodes[hits[j].0].last_updated_ms;
        assert(all[i] == before[i]);
    } else {
        assert(hits.last() == hits[j]);
        assert(all == before.push(all[before.len() as int]));
        assert(all[before.len() as int].id == hits[j].0);
    }
}

/// All the nodes around a seed but itself are candidates: their scores depend on the score of
/// the seed, and they are there for its reason.
pub proof fn seeds_hand_on_their_scores(g: GraphV, near: Seq<NodeV>, seed: Hit)
    ensures
        hop_tasks(g, near, seed) == near.filter_map(
            |n: NodeV|
                if n.id != seed.id {
                    Some(Task {
                    id: n.id,
                    why: seed.why,
                    hop: true,
                    basis: seed.score,
                    weight: weight_of(n.kind),
                    updated_ms: n.last_updated_ms,
                    degree: if n.kind == NodeKind::Decision || n.kind
                        == NodeKind::Implementation {
                        Some(graph::incident(g.edges, n.id).len() as usize)
                    } else {
                        None
                    },
                })
                } else {
                    None
                },
        ),
    decreases near.len(),
{
    if near.len() != 0 {
        seeds_hand_on_their_scores(g, near.drop_last(), seed);
    }
}

proof fn lemma_hop_task(g: GraphV, near: Seq<NodeV>, seed: Hit, j: int)
    requires
        0 <= j < near.len(),
        near[j].id != seed.id,
    ensures
        hop_tasks(g, near, seed).contains(task_of(g, near[j], seed.why, true, seed.score)),
    decreases near.len(),
{
    let init = near.drop_last();
    let before = hop_tasks(g, init, seed);
    let all = hop_tasks(g, near, seed);
    let t = task_of(g, near[j], seed.why, true, seed.score);
    if j < init.len() {
        assert(init[j] == near[j]);
        lemma_hop_task(g, init, seed, j);
        let i = choose|i: int| 0 <= i < before.len() && before[i] == t;
        assert(all[i] == t);
    } else {
        assert(all[before.len() as int] == t);
    }
}

proof fn lemma_contained_in_sum(a: Seq<Task>, b: Seq<Task>, t: Task)
    requires
        a.contains(t) || b.contains(t),
    ensures
        (a + b).contains(t),
{
    if a.contains(t) {
        let i = choose|i: int| 0 <= i < a.len() && a[i] == t;
        assert((a + b)[i] == t);
    } else {
        let i = choose|i: int| 0 <= i < b.len() && b[i] == t;
        assert((a + b)[a.len() + i] == t);
    }
}

/// Whatever an edge joins to a seed, in either direction, is a candidate: its score depends on
/// the score of the seed, and it is there for the reason of the seed.
pub proof fn neighbours_come_along(g: GraphV, seeds: Seq<Hit>, s: int, e: int, other: NodeId)
    requires
        0 <= s < seeds.len(),
        0 <= e < g.edges.len(),
        (g.edges[e].from == seeds[s].id && g.edges[e].to == other) || (g.edges[e].to == seeds[s].id
            && g.edges[e].from == other),
        other != seeds[s].id,
        g.nodes.contains_key(seeds[s].id),
        g.nodes[other].id == other,
    ensures
        exists|i: int|
            0 <= i < graph_tasks_of(g, seeds).len() && (#[trigger] graph_tasks_of(g, seeds)[i]).id
                == other && graph_tasks_of(g, seeds)[i].hop && graph_tasks_of(g, seeds)[i].basis
                == seeds[s].score && graph_tasks_of(g, seeds)[i].why == seeds[s].why
                && graph_tasks_of(g, seeds)[i].updated_ms == g.nodes[other].last_updated_ms,
    decreases seeds.len(),
{
    let init = seeds.drop_last();
    let before = graph_tasks_of(g, init);
    let last = seeds.last();
    let near = one_hop(g, last.id);
    let more = hop_tasks(g, near, last);
    let all = graph_tasks_of(g, seeds);
    assert(all == before + more);
    if s < init.len() {
        assert(init[s] == seeds[s]);
        neighbours_come_along(g, init, s, e, other);
        let i = choose|i: int|
            0 <= i < before.len() && (#[trigger] before[i]).id == other && before[i].hop
                && before[i].basis == seeds[s].score && before[i].why == seeds[s].why
                && before[i].updated_ms == g.nodes[other].last_updated_ms;
        assert(all[i] == before[i]);
    } else {
        let ids = graph::within(g.edges, last.id, 1);
        graph::neighbourhoods_are_listed(g.edges, last.id, 1);
        graph::one_step_is_one_edge(g.edges, last.id, other);
        assert(graph::joins(g.edges[e], last.id, other));
        assert(ids.contains(other));
        let listed = rank::ids_in_order(ids);
        assert(listed.contains(other));
        let j = choose|j: int| 0 <= j < listed.len() && listed[j] == other;
        assert(near[j] == g.nodes[other]);
        lemma_hop_task(g, near, last, j);
        let t = task_of(g, near[j], last.why, true, last.score);
        lemma_contained_in_sum(before, more, t);
        let i = choose|i: int| 0 <= i < all.len() && all[i] == t;
        assert(all[i].id == other);
    }
}

/// Every code atom with a word of the query in its name, in whatever case, is a candidate, in
/// the order of the nodes; no memory is brought up by its name.
pub proof fn named_atoms_are_candidates(g: GraphV, ids: Seq<NodeId>, tokens: Seq<Seq<char>>)
    ensures
        lexical_tasks_of(g, ids, tokens) == ids.filter_map(
            |id: NodeId|
                if !(g.nodes[id].kind == NodeKind::Decision || g.nodes[id].kind == NodeKind::Implementation || g.nodes[id].kind == NodeKind::Turn || g.nodes[id].kind == NodeKind::Session || g.nodes[id].kind == NodeKind::DesignDoc || g.nodes[id].kind == NodeKind::Concept || g.nodes[id].kind == NodeKind::Pattern || g.nodes[id].kind == NodeKind::DebtSignal) && (exists|q: int|
                    0 <= q < tokens.len() && text::occurs(
                        text::lowered(g.nodes[id].label),
                        #[trigger] tokens[q],
                    )) {
                    Some(Task {
                    id: g.nodes[id].id,
                    why: Why::Lexical,
                    hop: false,
                    basis: 0,
                    weight: weight_of(g.nodes[id].kind),
                    updated_ms: g.nodes[id].last_updated_ms,
                    degree: if g.nodes[id].kind == NodeKind::Decision || g.nodes[id].kind
                        == NodeKind::Implementation {
                        Some(graph::incident(g.edges, g.nodes[id].id).len() as usize)
                    } else {
                        None
                    },
                })
                } else {
                    None
                },
        ),
    decreases ids.len(),
{
    if ids.len() != 0 {
        named_atoms_are_candidates(g, ids.drop_last(), tokens);
    }
}

/// The seeds are the three strongest hits of a board: all of them where there are no more than
/// three, and none that is left out is stronger than one of them.
pub proof fn seeds_are_the_strongest(b: BoardV, x: int, i: int)
    requires
        b.ids.len() <= usize::MAX,
        0 <= x < b.ids.len(),
        0 <= i < seeds_of(b).len(),
    ensures
        seeds_of(b).len() == (if b.ids.len() < 3 {
            b.ids.len()
        } else {
            3
        }),
        b.ids.contains(seeds_of(b)[i].id),
        seeds_of(b)[i].score == b.best[seeds_of(b)[i].id].0,
        seeds_of(b)[i].why == b.best[seeds_of(b)[i].id].1,
        (exists|s: int| 0 <= s < seeds_of(b).len() && (#[trigger] seeds_of(b)[s]).id == b.ids[x])
            || rank::order_of(seeds_of(b)[i].score) >= rank::order_of(b.best[b.ids[x]].0),
{
    let keys = rank::order_keys(scores_of(b));
    let order = rank::ranking(keys);
    rank::lemma_ranking_exists(keys);
    assert(order.contains(order[i]));
    let at = order[i] as int;
    assert(seeds_of(b)[i] == board::hits_of(b)[at]);
    assert(b.ids[at] == seeds_of(b)[i].id);
    assert(order.contains(x as usize));
    let p = choose|p: int| 0 <= p < order.len() && order[p] == x as usize;
    if p < seeds_of(b).len() {
        assert(seeds_of(b)[p].id == b.ids[x]);
    } else {
        assert(rank::before(keys, order[i], order[p]));
        assert(keys[x] == rank::order_of(b.best[b.ids[x]].0));
        assert(keys[at] == rank::order_of(seeds_of(b)[i].score));
    }
}

/// Every score counts: the node of each task is on the board, and not with a lower score.
pub proof fn scores_are_taken_in(b: BoardV, tasks: Seq<Task>, scores: Seq<F32Bits>, i: int)
    requires
        0 <= i < tasks.len(),
    ensures
        taken(b, tasks, scores).best.contains_key(tasks[i].id),
        !rank::exceeds(scores[i], taken(b, tasks, scores).best[tasks[i].id].0),
    decreases tasks.len(),
{
    let init = tasks.drop_last();
    let before = taken(b, init, scores);
    let t = tasks.last();
    board::bumping_keeps_the_best(before, t.id, scores[tasks.len() - 1], t.why);
    if i < init.len() {
        assert(init[i] == tasks[i]);
        scores_are_taken_in(b, init, scores, i);
    }
}

/// Nothing else is on the board: what stands there was there before, or is the score of a task
/// with its reason.
pub proof fn only_scores_are_taken_in(
    b: BoardV,
    tasks: Seq<Task>,
    scores: Seq<F32Bits>,
    id: NodeId,
)
    requires
        taken(b, tasks, scores).best.contains_key(id),
    ensures
        (b.best.contains_key(id) && taken(b, tasks, scores).best[id] == b.best[id]) || exists|i: int|
            0 <= i < tasks.len() && (#[trigger] tasks[i]).id == id && taken(
                b,
                tasks,
                scores,
            ).best[id] == (scores[i], tasks[i].why),
    decreases tasks.len(),
{
    if tasks.len() != 0 {
        let init = tasks.drop_last();
        let before = taken(b, init, scores);
        let t = tasks[tasks.len() - 1];
        let after = taken(b, tasks, scores);
        if t.id == id && after.best[id] == (scores[tasks.len() - 1], t.why) {
        } else {
            only_scores_are_taken_in(b, init, scores, id);
            assert(after.best[id] == before.best[id]);
            if !(b.best.contains_key(id) && before.best[id] == b.best[id]) {
                let i = choose|i: int|
                    0 <= i < init.len() && (#[trigger] init[i]).id == id && before.best[id] == (
                        scores[i],
                        init[i].why,
                    );
                assert(tasks[i] == init[i]);
            }
        }
    }
}

/// A document whose score is a positive number is kept, and not with a lower score.
pub proof fn positive_documents_are_kept(docs: Seq<DocV>, scores: Seq<F32Bits>, i: int)
    requires
        0 <= i < docs.len(),
        0 < scores[i] <= 0x7f80_0000,
    ensures
        kept_docs(docs, scores).best.contains_key(docs[i].id),
        !rank::exceeds(scores[i], kept_docs(docs, scores).best[docs[i].id].0),
    decreases docs.len(),
{
    let init = docs.drop_last();
    let before = kept_docs(init, scores);
    let s = scores[docs.len() - 1];
    board::bumping_keeps_the_best(before, docs.last().id, s, Why::Lexical);
    if i < init.len() {
        assert(init[i] == docs[i]);
        positive_documents_are_kept(init, scores, i);
    }
}

/// Only documents whose scores are positive numbers are kept, as brought up by their words.
pub proof fn only_positive_documents_are_kept(docs: Seq<DocV>, scores: Seq<F32Bits>, id: NodeId)
    requires
        kept_docs(docs, scores).best.contains_key(id),
    ensures
        exists|i: int|
            0 <= i < docs.len() && (#[trigger] docs[i]).id == id && 0 < scores[i] <= 0x7f80_0000
                && kept_docs(docs, scores).best[id] == (scores[i], Why::Lexical),
    decreases docs.len(),
{
    let init = docs.drop_last();
    let before = kept_docs(init, scores);
    let d = docs[docs.len() - 1];
    let s = scores[docs.len() - 1];
    let after = kept_docs(docs, scores);
    if d.id == id && rank::exceeds(s, 0) && after.best[id] == (s, Why::Lexical) {
    } else {
        only_positive_documents_are_kept(init, scores, id);
        let i = choose|i: int|
            0 <= i < init.len() && (#[trigger] init[i]).id == id && 0 < scores[i] <= 0x7f80_0000
                && before.best[id] == (scores[i], Why::Lexical);
        assert(docs[i] == init[i]);
    }
}

/// A piece of evidence names its node and quotes it: the summary where there is one, or else
/// the body, of which at most 240 characters are shown, or else the label.
pub proof fn evidence_quotes_its_node(n: NodeV, h: Hit)
    ensures
        evidence_of(n, h).id == decimal::decimal(h.id as nat),
        evidence_of(n, h).score == h.score,
        evidence_of(n, h).label == n.label,
        evidence_of(n, h).provenance == n.provenance,
        evidence_of(n, h).kind == n.kind.title_of(),
        h.why == Why::Semantic ==> evidence_of(n, h).why == "semantic"@,
        h.why == Why::Lexical ==> evidence_of(n, h).why == "lexical"@,
        h.why == Why::Recency ==> evidence_of(n, h).why == "recency"@,
        n.summary.len() > 0 ==> evidence_of(n, h).snippet == n.summary,
        n.summary.len() == 0 && 0 < n.body.len() <= 240 ==> evidence_of(n, h).snippet == n.body,
        n.summary.len() == 0 && n.body.len() > 240 ==> evidence_of(n, h).snippet == n.body.subrange(
            0,
            240,
        ) + seq!['\u{2026}'],
        n.summary.len() == 0 && n.body.len() == 0 ==> evidence_of(n, h).snippet == n.label,
{
    if n.summary.len() == 0 && n.body.len() > 240 {
        assert(evidence_of(n, h).snippet =~= n.body.subrange(0, 240) + seq!['\u{2026}']);
    }
}

/// Every hit whose node is there is among those that are ranked.
pub proof fn hits_on_nodes_are_ranked(g: GraphV, hits: Seq<Hit>)
    ensures
        present(g, hits) == hits.filter_map(
            |h: Hit|
                if g.nodes.contains_key(h.id) {
                    Some(h)
                } else {
                    None
                },
        ),
    decreases hits.len(),
{
    if hits.len() != 0 {
        hits_on_nodes_are_ranked(g, hits.drop_last());
    }
}

/// A hit is either among the results, with its score, or as many results as were asked for are
/// no worse; and every result is the evidence of a hit.
pub proof fn nothing_better_is_left_out(g: GraphV, hits: Seq<Hit>, k: nat, x: int, i: int)
    requires
        hits.len() <= usize::MAX,
        0 <= x < hits.len(),
        0 <= i < best_evidence(g, hits, k).len(),
    ensures
        best_evidence(g, hits, k).contains(evidence_of(g.nodes[hits[x].id], hits[x])) || (
        best_evidence(g, hits, k).len() == k && rank::order_of(best_evidence(g, hits, k)[i].score)
            >= rank::order_of(hits[x].score)),
        exists|y: int|
            0 <= y < hits.len() && best_evidence(g, hits, k)[i] == evidence_of(
                g.nodes[(#[trigger] hits[y]).id],
                hits[y],
            ),
{
    let keys = rank::order_keys(hit_scores(hits));
    let order = rank::ranking(keys);
    let r = best_evidence(g, hits, k);
    rank::lemma_ranking_exists(keys);
    assert(order.contains(order[i]));
    let at = order[i] as int;
    assert(r[i] == evidence_of(g.nodes[hits[at].id], hits[at]));
    assert(order.contains(x as usize));
    let p = choose|p: int| 0 <= p < order.len() && order[p] == x as usize;
    if p < r.len() {
        assert(r[p] == evidence_of(g.nodes[hits[x].id], hits[x]));
    } else {
        assert(rank::before(keys, order[i], order[p]));
        assert(keys[x] == rank::order_of(hits[x].score));
        assert(keys[at] == rank::order_of(hits[at].score));
    }
}

/// A recall looks at forty times as many hits as it is to give results, and at 256 at least.
pub proof fn the_pool_is_wide(k: nat)
    ensures
        k <= 6 ==> pool_of(k) == 256,
        k > 6 && 40 * k <= usize::MAX ==> pool_of(k) == 40 * k,
        40 * k > usize::MAX ==> pool_of(k) == usize::MAX,
{
}

/// A score that a recall is given is on its board from then on, and never gives way to a lower
/// one.
pub proof fn passes_keep_scores(
    r: RecallV,
    g: GraphV,
    ix: IndexV,
    numbers: Seq<F32Bits>,
    i: int,
    id: NodeId,
)
    requires
        r.phase == Phase::Semantic || r.phase == Phase::Graph || r.phase == Phase::Lexical,
    ensures
        0 <= i < r.tasks.len() ==> advanced(r, g, ix, numbers).board.best.contains_key(
            r.tasks[i].id,
        ) && !rank::exceeds(
            numbers[i],
            advanced(r, g, ix, numbers).board.best[r.tasks[i].id].0,
        ),
        r.board.best.contains_key(id) ==> advanced(r, g, ix, numbers).board.best.contains_key(id)
            && !rank::exceeds(r.board.best[id].0, advanced(r, g, ix, numbers).board.best[id].0),
{
    if 0 <= i < r.tasks.len() {
        scores_are_taken_in(r.board, r.tasks, numbers, i);
    }
    if r.board.best.contains_key(id) {
        lemma_taken_keeps(r.board, r.tasks, numbers, id);
    }
}

proof fn lemma_taken_keeps(b: BoardV, tasks: Seq<Task>, scores: Seq<F32Bits>, id: NodeId)
    requires
        b.best.contains_key(id),
    ensures
        taken(b, tasks, scores).best.contains_key(id),
        !rank::exceeds(b.best[id].0, taken(b, tasks, scores).best[id].0),
    decreases tasks.len(),
{
    if tasks.len() != 0 {
        let before = taken(b, tasks.drop_last(), scores);
        lemma_taken_keeps(b, tasks.drop_last(), scores, id);
        let t = tasks.last();
        board::bumping_keeps_the_best(before, t.id, scores[tasks.len() - 1], t.why);
    }
}

/// A recall looks at what is similar, then at what is linked to the strongest of that, then at
/// names; it ranks whole documents only where all of this brought up nothing, or where there is
/// no vector index.
pub proof fn passes_come_in_order(r: RecallV, g: GraphV, ix: IndexV, numbers: Seq<F32Bits>)
    requires
        board::well_kept(r.board),
    ensures
        r.phase == Phase::Similarities ==> advanced(r, g, ix, numbers).phase == Phase::Semantic,
        r.phase == Phase::Semantic ==> advanced(r, g, ix, numbers).phase == Phase::Graph
            && advanced(r, g, ix, numbers).tasks == graph_tasks_of(
            g,
            seeds_of(advanced(r, g, ix, numbers).board),
        ),
        r.phase == Phase::Graph ==> advanced(r, g, ix, numbers).phase == Phase::Lexical && advanced(
            r,
            g,
            ix,
            numbers,
        ).tasks == lexical_tasks_of(g, g.order, text::tokens(r.query)),
        r.phase == Phase::Lexical && (r.tasks.len() != 0 || r.board.ids.len() != 0) ==> advanced(
            r,
            g,
            ix,
            numbers,
        ).phase == Phase::Done,
        r.phase == Phase::Lexical && r.tasks.len() == 0 && r.board.ids.len() == 0 ==> advanced(
            r,
            g,
            ix,
            numbers,
        ).phase == Phase::Documents,
        r.phase == Phase::Documents ==> advanced(r, g, ix, numbers).phase == Phase::Done,
        advanced(r, g, ix, numbers).k == r.k,
{
    lemma_taken_grows(r.board, r.tasks, numbers);
}

proof fn lemma_taken_grows(b: BoardV, tasks: Seq<Task>, scores: Seq<F32Bits>)
    requires
        board::well_kept(b),
    ensures
        board::well_kept(taken(b, tasks, scores)),
        b.ids.len() != 0 || tasks.len() != 0 ==> taken(b, tasks, scores).ids.len() != 0,
    decreases tasks.len(),
{
    if tasks.len() != 0 {
        let before = taken(b, tasks.drop_last(), scores);
        lemma_taken_grows(b, tasks.drop_last(), scores);
        let t = tasks.last();
        let s = scores[tasks.len() - 1];
        board::bumping_keeps_the_board(before, t.id, s, t.why);
        board::bumping_keeps_the_best(before, t.id, s, t.why);
        assert(taken(b, tasks, scores).ids.contains(t.id));
    }
}

/// A recall starts with the query and the number of results that were asked for, and with
/// nothing on its board. Without a vector index it goes by the words of the query from the
/// start.
pub proof fn recalls_start_with_what_was_asked(g: GraphV, ix: IndexV, query: Seq<char>, k: nat)
    ensures
        begun(g, ix, query, k).query == query,
        begun(g, ix, query, k).k == k,
        begun(g, ix, query, k).board.ids.len() == 0,
        begun(g, ix, query, k).result is None,
        ix.ids.len() != 0 ==> begun(g, ix, query, k).phase == Phase::Similarities && !begun(
            g,
            ix,
            query,
            k,
        ).degraded,
        ix.ids.len() == 0 ==> begun(g, ix, query, k).phase == Phase::Documents && begun(
            g,
            ix,
            query,
            k,
        ).degraded && begun(g, ix, query, k).stats == bm25::stats_of(g, text::tokens(query)),
{
}

/// What each pass works on: the hits of the vector index that are nearest to the query, in a
/// wide pool, or the statistics of the words of the query.
pub proof fn passes_work_on_these(r: RecallV, g: GraphV, ix: IndexV, numbers: Seq<F32Bits>)
    ensures
        r.phase == Phase::Similarities ==> advanced(r, g, ix, numbers).tasks == semantic_tasks_of(
            g,
            index::top_hits(ix.ids, numbers, pool_of(r.k)),
        ) && advanced(r, g, ix, numbers).board == r.board,
        r.phase == Phase::Lexical && advanced(r, g, ix, numbers).phase == Phase::Documents
            ==> advanced(r, g, ix, numbers).stats == bm25::stats_of(g, text::tokens(r.query)),
        r.phase == Phase::Documents ==> advanced(r, g, ix, numbers).board == kept_docs(
            r.stats.docs,
            numbers,
        ),
        r.phase != Phase::Done && advanced(r, g, ix, numbers).phase == Phase::Done ==> advanced(
            r,
            g,
            ix,
            numbers,
        ).result == Some(
            finalized(g, advanced(r, g, ix, numbers).board, r.k, r.query, r.degraded),
        ),
{
}

proof fn lemma_present_holds(g: GraphV, hits: Seq<Hit>, i: int)
    requires
        0 <= i < hits.len(),
        g.nodes.contains_key(hits[i].id),
    ensures
        present(g, hits).contains(hits[i]),
    decreases hits.len(),
{
    let init = hits.drop_last();
    let before = present(g, init);
    let all = present(g, hits);
    if i < init.len() {
        assert(init[i] == hits[i]);
        lemma_present_holds(g, init, i);
        let j = choose|j: int| 0 <= j < before.len() && before[j] == hits[i];
        assert(all[j] == hits[i]);
    } else {
        assert(all[before.len() as int] == hits[i]);
    }
}

proof fn lemma_redirected_numbers(g: GraphV, hits: Seq<Hit>)
    requires
        forall|y: int| 0 <= y < hits.len() ==> !rank::is_nan((#[trigger] hits[y]).score),
    ensures
        forall|id: NodeId| #[trigger]
            redirected(g, hits).best.contains_key(id) ==> !rank::is_nan(
                redirected(g, hits).best[id].0,
            ),
    decreases hits.len(),
{
    if hits.len() != 0 {
        let init = hits.drop_last();
        assert forall|y: int| 0 <= y < init.len() implies !rank::is_nan((#[trigger] init[y]).score) by {
            assert(init[y] == hits[y]);
        }
        lemma_redirected_numbers(g, init);
        assert(!rank::is_nan(hits[hits.len() - 1].score));
        let before = redirected(g, init);
        let after = redirected(g, hits);
        assert forall|id: NodeId| #[trigger] after.best.contains_key(id) implies !rank::is_nan(
            after.best[id].0,
        ) by {
            if before.best.contains_key(id) {
                assert(!rank::is_nan(before.best[id].0));
            }
        }
    }
}

/// What a recall brought up is among its results, unless as many as were asked for are no worse:
/// a node itself, or what superseded it, with a score that is not lower, where all scores are
/// numbers.
pub proof fn what_was_brought_up_is_answered(
    g: GraphV,
    b: BoardV,
    k: nat,
    query: Seq<char>,
    degraded: bool,
    x: int,
    i: int,
)
    requires
        b.ids.len() <= usize::MAX,
        0 <= x < b.ids.len(),
        g.nodes.contains_key(redirect(g, board::hits_of(b)[x]).id),
        forall|y: int|
            0 <= y < b.ids.len() ==> !rank::is_nan((#[trigger] board::hits_of(b)[y]).score),
        0 <= i < finalized(g, b, k, query, degraded).results.len(),
    ensures
        ({
            let to = redirect(g, board::hits_of(b)[x]);
            let rs = finalized(g, b, k, query, degraded).results;
            ||| exists|j: int|
                0 <= j < rs.len() && (#[trigger] rs[j]).id == decimal::decimal(to.id as nat)
                    && rs[j].label == g.nodes[to.id].label && !rank::exceeds(to.score, rs[j].score)
            ||| rs.len() == k && !rank::exceeds(to.score, rs[i].score)
        }),
{
    let hits = board::hits_of(b);
    let to = redirect(g, hits[x]);
    let fresh = redirected(g, hits);
    let all = board::hits_of(fresh);
    let ranked = present(g, all);
    lemma_fewer(g, hits);
    lemma_fewer_present(g, all);
    redirection_keeps_the_best(g, hits, x);
    lemma_redirected_well_kept(g, hits);
    lemma_redirected_numbers(g, hits);
    assert(fresh.ids.contains(to.id));
    let p = choose|p: int| 0 <= p < fresh.ids.len() && fresh.ids[p] == to.id;
    let h = all[p];
    assert(h.id == to.id && h.score == fresh.best[to.id].0);
    lemma_present_holds(g, all, p);
    let q = choose|q: int| 0 <= q < ranked.len() && ranked[q] == h;
    nothing_better_is_left_out(g, ranked, k, q, i);
    let rs = best_evidence(g, ranked, k);
    assert(finalized(g, b, k, query, degraded).results == rs);
    if rs.contains(evidence_of(g.nodes[h.id], h)) {
        let j = choose|j: int| 0 <= j < rs.len() && rs[j] == evidence_of(g.nodes[h.id], h);
        assert(rs[j].id == decimal::decimal(to.id as nat));
    }
}

/// A hit on a node that was superseded goes to what superseded it; one on a node that was not
/// stays, with its score and its reason either way.
pub proof fn hits_go_to_what_superseded_them(g: GraphV, h: Hit)
    ensures
        ({
            let sup = graph::superseders(g.edges);
            &&& !sup.contains_key(h.id) ==> redirect(g, h) == h
            &&& sup.contains_key(h.id) && !sup.contains_key(sup[h.id]) ==> redirect(g, h).id
                == sup[h.id]
            &&& redirect(g, h).score == h.score
            &&& redirect(g, h).why == h.why
        }),
{
    let sup = graph::superseders(g.edges);
    reveal_with_fuel(graph::nth_superseder, 2);
    if !sup.contains_key(h.id) {
        assert forall|x: NodeId| !graph::chain_head(sup, h.id, x) by {
            if graph::chain_head(sup, h.id, x) {
                let n = choose|n: nat|
                    n >= 1 && #[trigger] graph::nth_superseder(sup, h.id, n) == Some(x)
                        && !sup.contains_key(x);
                lemma_top_of_chain(sup, h.id, n);
            }
        }
    } else if !sup.contains_key(sup[h.id]) {
        assert(graph::nth_superseder(sup, h.id, 0) == Some(h.id));
        assert(graph::nth_superseder(sup, h.id, 1) == Some(sup[h.id]));
        assert(graph::chain_head(sup, h.id, sup[h.id]));
        let other = choose|x: NodeId| graph::chain_head(sup, h.id, x);
        graph::chain_head_unique(sup, h.id, sup[h.id], other);
    }
}

/// Nothing is on a redirected board but what hits were redirected to, with the scores and the
/// reasons of those hits.
pub proof fn redirection_adds_nothing(g: GraphV, hits: Seq<Hit>, id: NodeId)
    requires
        redirected(g, hits).best.contains_key(id),
    ensures
        exists|i: int|
            0 <= i < hits.len() && redirect(g, #[trigger] hits[i]).id == id && redirected(
                g,
                hits,
            ).best[id] == (hits[i].score, hits[i].why),
    decreases hits.len(),
{
    let init = hits.drop_last();
    let before = redirected(g, init);
    let after = redirected(g, hits);
    let h = hits[hits.len() - 1];
    if redirect(g, h).id == id && after.best[id] == (h.score, h.why) {
    } else {
        redirection_adds_nothing(g, init, id);
        let i = choose|i: int|
            0 <= i < init.len() && redirect(g, #[trigger] init[i]).id == id && before.best[id] == (
                init[i].score,
                init[i].why,
            );
        assert(hits[i] == init[i]);
    }
}

/// What a piece of evidence says: all that it holds.
pub proof fn evidence_views_say_all(x: Evidence)
    ensures
        x@.id == x.id@,
        x@.score == x.score,
        x@.kind == x.kind@,
        x@.label == x.label@,
        x@.snippet == x.snippet@,
        x@.why == x.why@,
        x@.provenance == model::provenance_view(x.provenance),
{
}

/// What an answer says: all that it holds.
pub proof fn recall_result_views_say_all(x: RecallResult)
    ensures
        x@.query == x.query@,
        x@.degraded == x.degraded,
        x@.results == evidence_views(x.results@),
{
}

/// Viewing a list keeps all its items, in their order.
pub proof fn evidence_views_keep_all(v: Seq<Evidence>, i: int)
    requires
        0 <= i < v.len(),
    ensures
        evidence_views(v).len() == v.len(),
        evidence_views(v)[i] == v[i]@,
{
}

} // verus!
