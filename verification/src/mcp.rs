//! The memory tools that an agent calls: what each is named, and what it answers.

use vstd::prelude::*;

use crate::api;
use crate::api::ListOrder;
use crate::ask;
use crate::ask::{Evidence, EvidenceV};
use crate::decimal;
use crate::graph;
use crate::graph::{GraphV, MemGraph};
use crate::model;
use crate::model::{Edge, EdgeV, F32Bits, Node, NodeV};
use crate::text;

verus! {

/// The tools.
#[derive(Debug, Clone, Copy, PartialEq, Eq, Structural)]
pub enum Tool {
    Search,
    RecallDecision,
    Related,
    Timeline,
    Note,
}

impl Tool {
    /// The name of a tool.
    pub open spec fn name_of(self) -> Seq<char> {
        match self {
            Tool::Search => "memory.search"@,
            Tool::RecallDecision => "memory.recall_decision"@,
            Tool::Related => "memory.related"@,
            Tool::Timeline => "memory.timeline"@,
            Tool::Note => "memory.note"@,
        }
    }

    /// The name of a tool.
    pub fn name(self) -> (r: &'static str)
        ensures
            r@ == self.name_of(),
    {
        match self {
            Tool::Search => "memory.search",
            Tool::RecallDecision => "memory.recall_decision",
            Tool::Related => "memory.related",
            Tool::Timeline => "memory.timeline",
            Tool::Note => "memory.note",
        }
    }

    /// What a tool is for.
    pub open spec fn purpose(self) -> Seq<char> {
        match self {
            Tool::Search => "free-text recall over the memory graph → ranked evidence + provenance"@,
            Tool::RecallDecision =>
                "decisions about a topic, with rationale + the session/commit they were made in"@,
            Tool::Related => "memories related to a file/symbol/topic (graph neighborhood)"@,
            Tool::Timeline => "recent memory, newest first by when it was first seen"@,
            Tool::Note =>
                "append-only: record a new decision/note (never deletes; human-curated in the canvas)"@,
        }
    }

    /// What a tool is for.
    pub fn description(self) -> (r: &'static str)
        ensures
            r@ == self.purpose(),
    {
        match self {
            Tool::Search => "free-text recall over the memory graph → ranked evidence + provenance",
            Tool::RecallDecision =>
                "decisions about a topic, with rationale + the session/commit they were made in",
            Tool::Related => "memories related to a file/symbol/topic (graph neighborhood)",
            Tool::Timeline => "recent memory, newest first by when it was first seen",
            Tool::Note =>
                "append-only: record a new decision/note (never deletes; human-curated in the canvas)",
        }
    }
}

/// All tools, in the order in which they are listed.
pub open spec fn all_tools() -> Seq<Tool> {
    seq![Tool::Search, Tool::RecallDecision, Tool::Related, Tool::Timeline, Tool::Note]
}

/// All tools.
pub fn tools() -> (r: Vec<Tool>)
    ensures
        r@ == all_tools(),
{
    let mut out: Vec<Tool> = Vec::new();
    out.push(Tool::Search);
    out.push(Tool::RecallDecision);
    out.push(Tool::Related);
    out.push(Tool::Timeline);
    out.push(Tool::Note);
    assert(out@ =~= all_tools());
    out
}

/// How many results a search gives.
pub fn search_size(k: Option<usize>) -> (r: usize)
    ensures
        r == api::bounded(k, 8, 50),
{
    api::bound(k, 8, 50)
}

// ---------------------------------------------------------------------------
// Decisions
// ---------------------------------------------------------------------------

/// A recalled decision.
pub struct RecalledDecision {
    pub id: String,
    pub topic: String,
    pub decision: String,
    pub session: Option<String>,
    pub commit: Option<String>,
    pub confidence: F32Bits,
}

/// What a recalled decision says.
#[verifier::ext_equal]
pub struct RecalledDecisionV {
    pub id: Seq<char>,
    pub topic: Seq<char>,
    pub decision: Seq<char>,
    pub session: Option<Seq<char>>,
    pub commit: Option<Seq<char>>,
    pub confidence: F32Bits,
}

impl View for RecalledDecision {
    type V = RecalledDecisionV;

    open spec fn view(&self) -> RecalledDecisionV {
        RecalledDecisionV {
            id: self.id@,
            topic: self.topic@,
            decision: self.decision@,
            session: model::opt(self.session),
            commit: model::opt(self.commit),
            confidence: self.confidence,
        }
    }
}

/// The views of recalled decisions.
pub open spec fn decision_views(v: Seq<RecalledDecision>) -> Seq<RecalledDecisionV> {
    v.map_values(|d: RecalledDecision| d@)
}

/// The decision in a piece of evidence, with the session and the commit it was made in.
pub open spec fn decision_of(e: EvidenceV, topic: Seq<char>) -> RecalledDecisionV {
    RecalledDecisionV {
        id: e.id,
        topic,
        decision: e.snippet,
        session: match e.provenance {
            Some(p) => p.native_session_id,
            None => None,
        },
        commit: match e.provenance {
            Some(p) => p.commit,
            None => None,
        },
        confidence: match e.provenance {
            Some(p) => p.confidence,
            None => 0,
        },
    }
}

/// The decisions in a list of evidence.
pub open spec fn decisions_of(all: Seq<EvidenceV>, topic: Seq<char>) -> Seq<RecalledDecisionV>
    decreases all.len(),
{
    if all.len() == 0 {
        Seq::empty()
    } else {
        let before = decisions_of(all.drop_last(), topic);
        if all.last().kind == "Decision"@ {
            before.push(decision_of(all.last(), topic))
        } else {
            before
        }
    }
}

/// How many results are recalled before the decisions are picked out.
pub const DECISION_POOL: usize = 20;

fn make_decision(e: &Evidence, topic: &str) -> (r: RecalledDecision)
    ensures
        r@ == decision_of(e@, topic@),
{
    let (session, commit, confidence): (Option<String>, Option<String>, F32Bits) =
        match &e.provenance {
        Some(p) => (model::copy_opt(&p.native_session_id), model::copy_opt(&p.commit), p.confidence),
        None => (None, None, 0),
    };
    RecalledDecision {
        id: e.id.clone(),
        topic: model::owned(topic),
        decision: e.snippet.clone(),
        session,
        commit,
        confidence,
    }
}

/// Picks the decisions out of recalled evidence.
pub fn recall_decision(all: &Vec<Evidence>, topic: &str) -> (r: Vec<RecalledDecision>)
    ensures
        decision_views(r@) == decisions_of(ask::evidence_views(all@), topic@),
{
    let mut out: Vec<RecalledDecision> = Vec::new();
    let ghost views = ask::evidence_views(all@);
    let n: usize = all.len();
    assert(views.take(0) =~= Seq::empty());
    assert(decision_views(out@) =~= Seq::empty());
    for i in 0..n
        invariant
            n == all@.len(),
            views == ask::evidence_views(all@),
            decision_views(out@) == decisions_of(views.take(i as int), topic@),
    {
        assert(views.take(i + 1).drop_last() =~= views.take(i as int));
        assert(views.take(i + 1).last() == all@[i as int]@);
        if text::same_str(all[i].kind.as_str(), "Decision") {
            let ghost before = out@;
            let d = make_decision(&all[i], topic);
            out.push(d);
            assert(decision_views(out@) =~= decision_views(before).push(d@));
        }
    }
    assert(views.take(n as int) =~= views);
    out
}

// ---------------------------------------------------------------------------
// Related memory
// ---------------------------------------------------------------------------

/// A node in brief.
pub struct BriefNode {
    pub id: String,
    pub kind: String,
    pub label: String,
    pub first_seen_ms: i64,
}

/// What a node in brief says.
#[verifier::ext_equal]
pub struct BriefNodeV {
    pub id: Seq<char>,
    pub kind: Seq<char>,
    pub label: Seq<char>,
    pub first_seen_ms: i64,
}

impl View for BriefNode {
    type V = BriefNodeV;

    open spec fn view(&self) -> BriefNodeV {
        BriefNodeV {
            id: self.id@,
            kind: self.kind@,
            label: self.label@,
            first_seen_ms: self.first_seen_ms,
        }
    }
}

/// A node in brief.
pub open spec fn brief_of(n: NodeV) -> BriefNodeV {
    BriefNodeV {
        id: decimal::decimal(n.id as nat),
        kind: n.kind.name(),
        label: n.label,
        first_seen_ms: n.first_seen_ms,
    }
}

impl BriefNode {
    /// A node in brief.
    pub fn of(n: &Node) -> (r: BriefNode)
        ensures
            r@ == brief_of(n@),
    {
        BriefNode {
            id: decimal::id_text(n.id),
            kind: model::owned(n.kind.tag()),
            label: n.label.clone(),
            first_seen_ms: n.first_seen_ms,
        }
    }
}

/// The views of nodes in brief.
pub open spec fn brief_views(v: Seq<BriefNode>) -> Seq<BriefNodeV> {
    v.map_values(|n: BriefNode| n@)
}

/// Nodes in brief.
pub open spec fn briefs(nodes: Seq<NodeV>) -> Seq<BriefNodeV> {
    nodes.map_values(|n: NodeV| brief_of(n))
}

/// An edge in brief.
pub struct BriefEdge {
    pub from: String,
    pub to: String,
    pub kind: String,
}

/// What an edge in brief says.
#[verifier::ext_equal]
pub struct BriefEdgeV {
    pub from: Seq<char>,
    pub to: Seq<char>,
    pub kind: Seq<char>,
}

impl View for BriefEdge {
    type V = BriefEdgeV;

    open spec fn view(&self) -> BriefEdgeV {
        BriefEdgeV { from: self.from@, to: self.to@, kind: self.kind@ }
    }
}

/// An edge in brief.
pub open spec fn brief_edge(e: EdgeV) -> BriefEdgeV {
    BriefEdgeV {
        from: decimal::decimal(e.from as nat),
        to: decimal::decimal(e.to as nat),
        kind: e.kind.name(),
    }
}

impl BriefEdge {
    /// An edge in brief.
    pub fn of(e: &Edge) -> (r: BriefEdge)
        ensures
            r@ == brief_edge(e@),
    {
        BriefEdge {
            from: decimal::id_text(e.from),
            to: decimal::id_text(e.to),
            kind: model::owned(e.kind.tag()),
        }
    }
}

/// The views of edges in brief.
pub open spec fn brief_edge_views(v: Seq<BriefEdge>) -> Seq<BriefEdgeV> {
    v.map_values(|e: BriefEdge| e@)
}

/// Edges in brief.
pub open spec fn brief_edges(edges: Seq<EdgeV>) -> Seq<BriefEdgeV> {
    edges.map_values(|e: EdgeV| brief_edge(e))
}

/// The memory around an anchor.
pub struct RelatedMemory {
    /// The node that the anchor was taken for.
    pub seed: Option<String>,
    pub nodes: Vec<BriefNode>,
    pub edges: Vec<BriefEdge>,
}

/// The memory around the first piece of evidence, where its id is a number.
pub open spec fn is_related(r: RelatedMemory, g: GraphV, all: Seq<EvidenceV>) -> bool {
    if all.len() == 0 {
        r.seed is None && r.nodes@.len() == 0 && r.edges@.len() == 0
    } else {
        match decimal::parsed(all[0].id) {
            Some(x) => {
                &&& model::opt(r.seed) == Some(all[0].id)
                &&& g.nodes.contains_key(x) ==> {
                    let near = graph::within(g.edges, x, 1);
                    &&& brief_views(r.nodes@) == briefs(graph::nodes_of(g.nodes, near))
                    &&& exists|edges: Seq<EdgeV>| #[trigger]
                        graph::lists_edges(edges, g.edges, near) && brief_edge_views(r.edges@)
                            == brief_edges(edges)
                }
                &&& !g.nodes.contains_key(x) ==> r.nodes@.len() == 0 && r.edges@.len() == 0
            },
            None => r.seed is None && r.nodes@.len() == 0 && r.edges@.len() == 0,
        }
    }
}

fn brief_list(nodes: &Vec<Node>) -> (r: Vec<BriefNode>)
    ensures
        brief_views(r@) == briefs(graph::node_views(nodes@)),
{
    let mut out: Vec<BriefNode> = Vec::new();
    let n: usize = nodes.len();
    for i in 0..n
        invariant
            n == nodes@.len(),
            out@.len() == i,
            forall|j: int| 0 <= j < i ==> (#[trigger] out@[j])@ == brief_of(nodes@[j]@),
    {
        out.push(BriefNode::of(&nodes[i]));
    }
    assert(brief_views(out@) =~= briefs(graph::node_views(nodes@)));
    out
}

fn brief_edge_list(edges: &Vec<Edge>) -> (r: Vec<BriefEdge>)
    ensures
        brief_edge_views(r@) == brief_edges(graph::edge_views(edges@)),
{
    let mut out: Vec<BriefEdge> = Vec::new();
    let n: usize = edges.len();
    for i in 0..n
        invariant
            n == edges@.len(),
            out@.len() == i,
            forall|j: int| 0 <= j < i ==> (#[trigger] out@[j])@ == brief_edge(edges@[j]@),
    {
        out.push(BriefEdge::of(&edges[i]));
    }
    assert(brief_edge_views(out@) =~= brief_edges(graph::edge_views(edges@)));
    out
}

/// The memory around the best match of an anchor.
pub fn related(g: &MemGraph, all: &Vec<Evidence>) -> (r: RelatedMemory)
    requires
        g.wf(),
    ensures
        is_related(r, g@, ask::evidence_views(all@)),
{
    if all.len() > 0 {
        let seed = all[0].id.as_str();
        assert(ask::evidence_views(all@)[0] == all@[0]@);
        match decimal::parse_id(seed) {
            Some(x) => {
                let (nodes, edges) = g.neighbors(x, 1);
                let r = RelatedMemory {
                    seed: Some(model::owned(seed)),
                    nodes: brief_list(&nodes),
                    edges: brief_edge_list(&edges),
                };
                proof {
                    assert(brief_views(r.nodes@).len() == graph::node_views(nodes@).len());
                    assert(brief_edge_views(r.edges@).len() == graph::edge_views(edges@).len());
                    if g@.nodes.contains_key(x) {
                        let near = graph::within(g@.edges, x, 1);
                        assert(graph::lists_edges(graph::edge_views(edges@), g@.edges, near));
                    }
                }
                return r;
            },
            None => {},
        }
    }
    RelatedMemory { seed: None, nodes: Vec::new(), edges: Vec::new() }
}

/// Recent memory: the nodes by when they were first seen, the latest first.
pub fn timeline(g: &MemGraph, limit: Option<usize>) -> (r: Vec<BriefNode>)
    requires
        g.wf(),
    ensures
        brief_views(r@) == briefs(
            api::nodes_at(g@, api::listing(g@, ListOrder::Newest, api::bounded(limit, 20, 200))),
        ),
{
    let ids = api::list_ids(g, ListOrder::Newest, api::bound(limit, 20, 200));
    let mut out: Vec<BriefNode> = Vec::new();
    let n: usize = ids.len();
    for i in 0..n
        invariant
            n == ids@.len(),
            forall|i: int| 0 <= i < ids@.len() ==> g@.nodes.contains_key(#[trigger] ids@[i]),
            out@.len() == i,
            forall|j: int| 0 <= j < i ==> (#[trigger] out@[j])@ == brief_of(g@.nodes[ids@[j]]),
    {
        assert(g@.nodes.contains_key(ids@[i as int]));
        match g.get(ids[i]) {
            Some(node) => {
                out.push(BriefNode::of(node));
            },
            None => {},
        }
    }
    assert(brief_views(out@) =~= briefs(api::nodes_at(g@, ids@)));
    out
}

/// The text of a note without the blanks around it; nothing where it is blank.
pub fn note_text(text: &str) -> (r: Option<String>)
    ensures
        match r {
            Some(t) => t@ == text::trimmed(text@) && t@.len() != 0,
            None => text::trimmed(text@).len() == 0,
        },
{
    let t = text::trim(&text::chars_of(text));
    if t.len() == 0 {
        None
    } else {
        Some(text::string_of(&t))
    }
}

// ---------------------------------------------------------------------------
// Laws
// ---------------------------------------------------------------------------

/// Different tools have different names.
pub proof fn tool_names_differ(a: Tool, b: Tool)
    requires
        a.name_of() == b.name_of(),
    ensures
        a == b,
{
    reveal_strlit("memory.search");
    reveal_strlit("memory.recall_decision");
    reveal_strlit("memory.related");
    reveal_strlit("memory.timeline");
    reveal_strlit("memory.note");
    let (x, y) = (a.name_of(), b.name_of());
    assert(x.len() == y.len());
}

/// Every decision among the evidence is recalled, in its order, with its words, its session, its
/// commit and how sure it is; nothing else is.
pub proof fn decisions_are_picked_out(all: Seq<EvidenceV>, topic: Seq<char>)
    ensures
        decisions_of(all, topic) == all.filter_map(
            |e: EvidenceV|
                if e.kind == "Decision"@ {
                    Some(
                        RecalledDecisionV {
                            id: e.id,
                            topic,
                            decision: e.snippet,
                            session: if e.provenance is Some {
                                e.provenance->0.native_session_id
                            } else {
                                None
                            },
                            commit: if e.provenance is Some {
                                e.provenance->0.commit
                            } else {
                                None
                            },
                            confidence: if e.provenance is Some {
                                e.provenance->0.confidence
                            } else {
                                0
                            },
                        },
                    )
                } else {
                    None
                },
        ),
    decreases all.len(),
{
    if all.len() != 0 {
        decisions_are_picked_out(all.drop_last(), topic);
    }
}

/// What a node and an edge say in brief.
pub proof fn briefs_name_their_subject(n: NodeV, e: EdgeV)
    ensures
        brief_of(n).id == decimal::decimal(n.id as nat),
        brief_of(n).kind == n.kind.name(),
        brief_of(n).label == n.label,
        brief_of(n).first_seen_ms == n.first_seen_ms,
        brief_edge(e).from == decimal::decimal(e.from as nat),
        brief_edge(e).to == decimal::decimal(e.to as nat),
        brief_edge(e).kind == e.kind.name(),
{
}

/// What is related to an anchor is what an edge joins to its best match, the match itself, and
/// the edges between them.
pub proof fn related_memory_is_around_the_match(
    r: RelatedMemory,
    g: GraphV,
    all: Seq<EvidenceV>,
    x: u128,
    i: int,
    other: u128,
)
    requires
        is_related(r, g, all),
        all.len() != 0,
        decimal::parsed(all[0].id) == Some(x),
        g.nodes.contains_key(x),
        0 <= i < g.edges.len(),
        (g.edges[i].from == x && g.edges[i].to == other) || (g.edges[i].to == x && g.edges[i].from
            == other),
    ensures
        model::opt(r.seed) == Some(all[0].id),
        brief_views(r.nodes@).contains(brief_of(g.nodes[other])),
        brief_views(r.nodes@).contains(brief_of(g.nodes[x])),
        brief_edge_views(r.edges@).contains(brief_edge(g.edges[i])),
{
    let near = graph::within(g.edges, x, 1);
    graph::one_step_is_one_edge(g.edges, x, other);
    graph::one_step_is_one_edge(g.edges, x, x);
    assert(graph::joins(g.edges[i], x, other));
    graph::neighbourhoods_are_listed(g.edges, x, 1);
    let ids = crate::rank::ids_in_order(near);
    assert(ids.contains(other) && ids.contains(x));
    let a = choose|a: int| 0 <= a < ids.len() && ids[a] == other;
    let b = choose|b: int| 0 <= b < ids.len() && ids[b] == x;
    let nodes = briefs(graph::nodes_of(g.nodes, near));
    assert(nodes[a] == brief_of(g.nodes[other]));
    assert(nodes[b] == brief_of(g.nodes[x]));
    let edges = choose|edges: Seq<EdgeV>| #[trigger]
        graph::lists_edges(edges, g.edges, near) && brief_edge_views(r.edges@) == brief_edges(edges);
    assert(near.contains(g.edges[i].from) && near.contains(g.edges[i].to));
    assert(edges.contains(g.edges[i]));
    let k = choose|k: int| 0 <= k < edges.len() && edges[k] == g.edges[i];
    assert(brief_edges(edges)[k] == brief_edge(g.edges[i]));
}

/// The tools, and what they are called.
pub proof fn tools_are_these()
    ensures
        all_tools().len() == 5,
        all_tools()[0].name_of() == "memory.search"@,
        all_tools()[1].name_of() == "memory.recall_decision"@,
        all_tools()[2].name_of() == "memory.related"@,
        all_tools()[3].name_of() == "memory.timeline"@,
        all_tools()[4].name_of() == "memory.note"@,
{
}

/// What the tools are for, in the words in which they are offered.
pub proof fn tools_are_for_this()
    ensures
        Tool::Search.purpose()
            == "free-text recall over the memory graph → ranked evidence + provenance"@,
        Tool::RecallDecision.purpose()
            == "decisions about a topic, with rationale + the session/commit they were made in"@,
        Tool::Related.purpose()
            == "memories related to a file/symbol/topic (graph neighborhood)"@,
        Tool::Timeline.purpose()
            == "recent memory, newest first by when it was first seen"@,
        Tool::Note.purpose()
            == "append-only: record a new decision/note (never deletes; human-curated in the canvas)"@,
{
}

/// What a recalled decision says: all that it holds.
pub proof fn recalled_decision_views_say_all(x: RecalledDecision)
    ensures
        x@.id == x.id@,
        x@.topic == x.topic@,
        x@.decision == x.decision@,
        x@.session == model::opt(x.session),
        x@.commit == model::opt(x.commit),
        x@.confidence == x.confidence,
{
}

/// What a node in brief says: all that it holds.
pub proof fn brief_node_views_say_all(x: BriefNode)
    ensures
        x@.id == x.id@,
        x@.kind == x.kind@,
        x@.label == x.label@,
        x@.first_seen_ms == x.first_seen_ms,
{
}

/// What an edge in brief says: all that it holds.
pub proof fn brief_edge_views_say_all(x: BriefEdge)
    ensures
        x@.from == x.from@,
        x@.to == x.to@,
        x@.kind == x.kind@,
{
}

/// Viewing a list keeps all its items, in their order.
pub proof fn decision_views_keep_all(v: Seq<RecalledDecision>, i: int)
    requires
        0 <= i < v.len(),
    ensures
        decision_views(v).len() == v.len(),
        decision_views(v)[i] == v[i]@,
{
}

/// Viewing a list keeps all its items, in their order.
pub proof fn brief_views_keep_all(v: Seq<BriefNode>, i: int)
    requires
        0 <= i < v.len(),
    ensures
        brief_views(v).len() == v.len(),
        brief_views(v)[i] == v[i]@,
{
}

/// Viewing a list keeps all its items, in their order.
pub proof fn brief_edge_views_keep_all(v: Seq<BriefEdge>, i: int)
    requires
        0 <= i < v.len(),
    ensures
        brief_edge_views(v).len() == v.len(),
        brief_edge_views(v)[i] == v[i]@,
{
}

/// A list in brief shows every node and every edge that it is made of, in their order.
pub proof fn brief_lists_show_everything(nodes: Seq<NodeV>, edges: Seq<EdgeV>, i: int)
    ensures
        briefs(nodes).len() == nodes.len(),
        0 <= i < nodes.len() ==> briefs(nodes)[i] == brief_of(nodes[i]),
        brief_edges(edges).len() == edges.len(),
        0 <= i < edges.len() ==> brief_edges(edges)[i] == brief_edge(edges[i]),
{
}

} // verus!
