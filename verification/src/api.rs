//! What the HTTP API answers: bounded slices of the graph, neighbourhoods, single nodes and the
//! timeline, in a form that any renderer can take. Ids are written in decimal text.

use std::collections::HashSet;

use vstd::prelude::*;

use crate::attrs::Attrs;
use crate::decimal;
use crate::graph;
use crate::graph::{GraphV, MemGraph};
use crate::model;
use crate::model::{
    Edge, EdgeV, F32Bits, Node, NodeId, NodeKind, NodeV, Provenance, ProvenanceV,
};
use crate::rank;
use crate::text;
use crate::text::CharClass;

verus! {

broadcast use vstd::std_specs::hash::group_hash_axioms;

// ---------------------------------------------------------------------------
// Nodes and edges on the wire
// ---------------------------------------------------------------------------

/// A node on the wire.
pub struct WireNode {
    pub id: String,
    pub kind: String,
    pub label: String,
    pub summary: String,
    /// The full text, on the detail of a single node only.
    pub body: Option<String>,
    pub provenance: Option<Provenance>,
    pub attrs: Attrs,
    pub first_seen_ms: i64,
    pub last_updated_ms: i64,
}

/// What a node on the wire says.
#[verifier::ext_equal]
pub struct WireNodeV {
    pub id: Seq<char>,
    pub kind: Seq<char>,
    pub label: Seq<char>,
    pub summary: Seq<char>,
    pub body: Option<Seq<char>>,
    pub provenance: Option<ProvenanceV>,
    pub attrs: Map<Seq<char>, Seq<char>>,
    pub first_seen_ms: i64,
    pub last_updated_ms: i64,
}

impl View for WireNode {
    type V = WireNodeV;

    open spec fn view(&self) -> WireNodeV {
        WireNodeV {
            id: self.id@,
            kind: self.kind@,
            label: self.label@,
            summary: self.summary@,
            body: model::opt(self.body),
            provenance: model::provenance_view(self.provenance),
            attrs: self.attrs@,
            first_seen_ms: self.first_seen_ms,
            last_updated_ms: self.last_updated_ms,
        }
    }
}

/// The gist of a node: its summary, or else that of its body, or else its label.
pub open spec fn gist_of(n: NodeV) -> Seq<char> {
    if n.summary.len() != 0 {
        n.summary
    } else if n.body.len() != 0 {
        model::summary_of(n.body)
    } else {
        n.label
    }
}

/// A node in a listing: its gist, without its body.
pub open spec fn bulk_of(n: NodeV) -> WireNodeV {
    WireNodeV {
        id: decimal::decimal(n.id as nat),
        kind: n.kind.name(),
        label: n.label,
        summary: gist_of(n),
        body: None,
        provenance: n.provenance,
        attrs: n.attrs,
        first_seen_ms: n.first_seen_ms,
        last_updated_ms: n.last_updated_ms,
    }
}

/// A node on its own: with its body.
pub open spec fn detail_of(n: NodeV) -> WireNodeV {
    WireNodeV { body: Some(n.body), ..bulk_of(n) }
}

impl WireNode {
    /// A node in a listing.
    pub fn bulk(n: &Node) -> (r: WireNode)
        ensures
            r@ == bulk_of(n@),
    {
        let summary: String = if !n.summary.as_str().is_empty() {
            n.summary.clone()
        } else if !n.body.as_str().is_empty() {
            model::summarize(n.body.as_str())
        } else {
            n.label.clone()
        };
        WireNode {
            id: decimal::id_text(n.id),
            kind: model::owned(n.kind.tag()),
            label: n.label.clone(),
            summary,
            body: None,
            provenance: model::copy_provenance(&n.provenance),
            attrs: n.attrs.clone(),
            first_seen_ms: n.first_seen_ms,
            last_updated_ms: n.last_updated_ms,
        }
    }

    /// A node on its own.
    pub fn detail(n: &Node) -> (r: WireNode)
        ensures
            r@ == detail_of(n@),
    {
        WireNode { body: Some(n.body.clone()), ..WireNode::bulk(n) }
    }
}

/// An edge on the wire.
pub struct WireEdge {
    pub from: String,
    pub to: String,
    pub kind: String,
    pub weight: F32Bits,
}

/// What an edge on the wire says.
#[verifier::ext_equal]
pub struct WireEdgeV {
    pub from: Seq<char>,
    pub to: Seq<char>,
    pub kind: Seq<char>,
    pub weight: F32Bits,
}

impl View for WireEdge {
    type V = WireEdgeV;

    open spec fn view(&self) -> WireEdgeV {
        WireEdgeV { from: self.from@, to: self.to@, kind: self.kind@, weight: self.weight }
    }
}

/// An edge on the wire.
pub open spec fn wire_edge(e: EdgeV) -> WireEdgeV {
    WireEdgeV {
        from: decimal::decimal(e.from as nat),
        to: decimal::decimal(e.to as nat),
        kind: e.kind.name(),
        weight: e.weight,
    }
}

impl WireEdge {
    /// An edge on the wire.
    pub fn of(e: &Edge) -> (r: WireEdge)
        ensures
            r@ == wire_edge(e@),
    {
        WireEdge {
            from: decimal::id_text(e.from),
            to: decimal::id_text(e.to),
            kind: model::owned(e.kind.tag()),
            weight: e.weight,
        }
    }
}

/// A part of the graph on the wire.
pub struct WireGraph {
    pub nodes: Vec<WireNode>,
    pub edges: Vec<WireEdge>,
}

/// The views of nodes on the wire.
pub open spec fn wire_nodes(v: Seq<WireNode>) -> Seq<WireNodeV> {
    v.map_values(|n: WireNode| n@)
}

/// The views of edges on the wire.
pub open spec fn wire_edges(v: Seq<WireEdge>) -> Seq<WireEdgeV> {
    v.map_values(|e: WireEdge| e@)
}

/// Nodes in a listing.
pub open spec fn bulk_all(nodes: Seq<NodeV>) -> Seq<WireNodeV> {
    nodes.map_values(|n: NodeV| bulk_of(n))
}

/// Edges on the wire.
pub open spec fn wire_all(edges: Seq<EdgeV>) -> Seq<WireEdgeV> {
    edges.map_values(|e: EdgeV| wire_edge(e))
}

/// The nodes with some ids.
pub open spec fn nodes_at(g: GraphV, ids: Seq<NodeId>) -> Seq<NodeV> {
    ids.map_values(|id: NodeId| g.nodes[id])
}

// ---------------------------------------------------------------------------
// Ordered listings
// ---------------------------------------------------------------------------

/// The first `limit` ids by descending keys; equal keys keep their order.
pub open spec fn first_ranked(ids: Seq<NodeId>, keys: Seq<i64>, limit: nat) -> Seq<NodeId> {
    let order = rank::ranking(keys);
    Seq::new(
        if limit < order.len() {
            limit
        } else {
            order.len()
        },
        |i: int| ids[order[i] as int],
    )
}

/// The first `limit` ids by descending keys.
pub fn rank_ids(ids: &Vec<NodeId>, keys: &Vec<i64>, limit: usize) -> (r: Vec<NodeId>)
    requires
        ids@.len() == keys@.len(),
    ensures
        r@ == first_ranked(ids@, keys@, limit as nat),
        forall|i: int| 0 <= i < r@.len() ==> ids@.contains(#[trigger] r@[i]),
{
    let order = rank::rank(keys);
    let m: usize = if limit < order.len() {
        limit
    } else {
        order.len()
    };
    let mut out: Vec<NodeId> = Vec::new();
    for i in 0..m
        invariant
            m <= order@.len(),
            ids@.len() == keys@.len(),
            rank::is_ranking(keys@, order@),
            out@.len() == i,
            forall|j: int| 0 <= j < i ==> #[trigger] out@[j] == ids@[order@[j] as int],
            forall|j: int| 0 <= j < i ==> ids@.contains(#[trigger] out@[j]),
    {
        let at: usize = order[i];
        assert(order@.contains(at));
        out.push(ids[at]);
    }
    assert(out@ =~= first_ranked(ids@, keys@, limit as nat));
    out
}

/// The keys that put the latest change first.
pub open spec fn by_update(g: GraphV, ids: Seq<NodeId>) -> Seq<i64> {
    ids.map_values(|id: NodeId| g.nodes[id].last_updated_ms)
}

/// The keys that put the latest first sight first.
pub open spec fn by_first_seen(g: GraphV, ids: Seq<NodeId>) -> Seq<i64> {
    ids.map_values(|id: NodeId| g.nodes[id].first_seen_ms)
}

/// The keys that put the earliest first sight first.
pub open spec fn by_age(g: GraphV, ids: Seq<NodeId>) -> Seq<i64> {
    ids.map_values(|id: NodeId| (-1 - g.nodes[id].first_seen_ms) as i64)
}

/// What a listing is ordered by.
#[derive(Clone, Copy)]
pub enum ListOrder {
    /// The latest change first.
    Updated,
    /// The latest first sight first.
    Newest,
    /// The earliest first sight first.
    Oldest,
}

impl ListOrder {
    /// The keys of nodes.
    pub open spec fn keys(self, g: GraphV, ids: Seq<NodeId>) -> Seq<i64> {
        match self {
            ListOrder::Updated => by_update(g, ids),
            ListOrder::Newest => by_first_seen(g, ids),
            ListOrder::Oldest => by_age(g, ids),
        }
    }

    fn keys_of(self, g: &MemGraph, ids: &Vec<NodeId>) -> (r: Vec<i64>)
        requires
            forall|i: int| 0 <= i < ids@.len() ==> g@.nodes.contains_key(#[trigger] ids@[i]),
        ensures
            r@ == self.keys(g@, ids@),
    {
        let mut out: Vec<i64> = Vec::new();
        let n: usize = ids.len();
        for i in 0..n
            invariant
                n == ids@.len(),
                forall|i: int| 0 <= i < ids@.len() ==> g@.nodes.contains_key(#[trigger] ids@[i]),
                out@.len() == i,
                forall|j: int| 0 <= j < i ==> #[trigger] out@[j] == self.keys(g@, ids@)[j],
        {
            assert(g@.nodes.contains_key(ids@[i as int]));
            match g.get(ids[i]) {
                Some(node) => {
                    let key: i64 = match self {
                        ListOrder::Updated => node.last_updated_ms,
                        ListOrder::Newest => node.first_seen_ms,
                        ListOrder::Oldest => -1 - node.first_seen_ms,
                    };
                    out.push(key);
                },
                None => {},
            }
        }
        assert(out@ =~= self.keys(g@, ids@));
        out
    }
}

/// Nodes in a listing, by their ids.
pub fn list_nodes(g: &MemGraph, ids: &Vec<NodeId>) -> (r: Vec<WireNode>)
    requires
        forall|i: int| 0 <= i < ids@.len() ==> g@.nodes.contains_key(#[trigger] ids@[i]),
    ensures
        wire_nodes(r@) == bulk_all(nodes_at(g@, ids@)),
{
    let mut out: Vec<WireNode> = Vec::new();
    let n: usize = ids.len();
    for i in 0..n
        invariant
            n == ids@.len(),
            forall|i: int| 0 <= i < ids@.len() ==> g@.nodes.contains_key(#[trigger] ids@[i]),
            out@.len() == i,
            forall|j: int| 0 <= j < i ==> (#[trigger] out@[j])@ == bulk_of(g@.nodes[ids@[j]]),
    {
        assert(g@.nodes.contains_key(ids@[i as int]));
        match g.get(ids[i]) {
            Some(node) => {
                out.push(WireNode::bulk(node));
            },
            None => {},
        }
    }
    assert(wire_nodes(out@) =~= bulk_all(nodes_at(g@, ids@)));
    out
}

/// The first `limit` nodes of a graph in some order.
pub open spec fn listing(g: GraphV, order: ListOrder, limit: nat) -> Seq<NodeId> {
    first_ranked(g.order, order.keys(g, g.order), limit)
}

/// The first `limit` nodes of a graph in some order.
pub fn list_ids(g: &MemGraph, order: ListOrder, limit: usize) -> (r: Vec<NodeId>)
    requires
        g.wf(),
    ensures
        r@ == listing(g@, order, limit as nat),
        forall|i: int| 0 <= i < r@.len() ==> g@.nodes.contains_key(#[trigger] r@[i]),
{
    proof {
        g.shape();
    }
    let ids = g.ids();
    assert forall|i: int| 0 <= i < ids@.len() implies g@.nodes.contains_key(#[trigger] ids@[i]) by {
        assert(g@.order.contains(ids@[i]));
    }
    let keys = order.keys_of(g, ids);
    rank_ids(ids, &keys, limit)
}

// ---------------------------------------------------------------------------
// The slice of the graph
// ---------------------------------------------------------------------------

/// Whether a name is that of a kind, as it is written in the code or as its tag, whatever the
/// case.
pub open spec fn is_name_of(name: Seq<char>, kind: NodeKind) -> bool {
    let t = text::ascii_lowered(text::trimmed(name));
    t == text::ascii_lowered(kind.title_of()) || t == text::ascii_lowered(kind.name())
}

/// Whether a list of names has the name of a kind.
pub open spec fn names_kind(names: Seq<Seq<char>>, kind: NodeKind) -> bool {
    exists|i: int| 0 <= i < names.len() && is_name_of(#[trigger] names[i], kind)
}

/// Whether a kind is asked for: every one where none is named; the names stand between commas.
pub open spec fn wanted(kind: NodeKind, types: Option<Seq<char>>) -> bool {
    match types {
        Some(t) => names_kind(text::pieces(t, CharClass::Is(',')), kind),
        None => true,
    }
}

/// The ids of the nodes of the kinds that are asked for.
pub open spec fn wanted_ids(g: GraphV, ids: Seq<NodeId>, types: Option<Seq<char>>) -> Seq<NodeId>
    decreases ids.len(),
{
    if ids.len() == 0 {
        Seq::empty()
    } else {
        let before = wanted_ids(g, ids.drop_last(), types);
        if wanted(g.nodes[ids.last()].kind, types) {
            before.push(ids.last())
        } else {
            before
        }
    }
}

/// The edges between some nodes, in order.
pub open spec fn edges_among(edges: Seq<EdgeV>, ids: Seq<NodeId>) -> Seq<EdgeV>
    decreases edges.len(),
{
    if edges.len() == 0 {
        Seq::empty()
    } else {
        let before = edges_among(edges.drop_last(), ids);
        let e = edges.last();
        if ids.contains(e.from) && ids.contains(e.to) {
            before.push(e)
        } else {
            before
        }
    }
}

/// A number, where there is one, up to a limit.
pub open spec fn bounded(given: Option<usize>, default: usize, most: usize) -> nat {
    let n = match given {
        Some(x) => x,
        None => default,
    };
    if n < most {
        n as nat
    } else {
        most as nat
    }
}

/// A number, where there is one, up to a limit.
pub fn bound(given: Option<usize>, default: usize, most: usize) -> (r: usize)
    ensures
        r == bounded(given, default, most),
{
    let n: usize = match given {
        Some(x) => x,
        None => default,
    };
    if n < most {
        n
    } else {
        most
    }
}

fn kind_is_named(names: &Vec<Vec<char>>, kind: NodeKind) -> (r: bool)
    ensures
        r == names_kind(text::views(names@), kind),
{
    let title = text::ascii_lower_of(&text::chars_of(kind.title()));
    let tag = text::ascii_lower_of(&text::chars_of(kind.tag()));
    let n: usize = names.len();
    for i in 0..n
        invariant
            n == names@.len(),
            title@ == text::ascii_lowered(kind.title_of()),
            tag@ == text::ascii_lowered(kind.name()),
            forall|j: int|
                0 <= j < i ==> !is_name_of(#[trigger] text::views(names@)[j], kind),
    {
        let name = text::ascii_lower_of(&text::trim(&names[i]));
        assert(text::views(names@)[i as int] == names@[i as int]@);
        if text::same(&name, &title) || text::same(&name, &tag) {
            assert(is_name_of(text::views(names@)[i as int], kind));
            return true;
        }
    }
    false
}

fn choose_ids(g: &MemGraph, types: Option<&str>) -> (r: Vec<NodeId>)
    requires
        g.wf(),
    ensures
        r@ == wanted_ids(g@, g@.order, crate::coderepo::slice_opt(types)),
        forall|i: int| 0 <= i < r@.len() ==> g@.nodes.contains_key(#[trigger] r@[i]),
{
    let names: Option<Vec<Vec<char>>> = match types {
        Some(t) => Some(text::split(&text::chars_of(t), CharClass::Is(','))),
        None => None,
    };
    proof {
        g.shape();
    }
    let ghost asked = crate::coderepo::slice_opt(types);
    let ids = g.ids();
    let mut out: Vec<NodeId> = Vec::new();
    let n: usize = ids.len();
    assert(ids@.take(0) =~= Seq::empty());
    for i in 0..n
        invariant
            n == ids@.len(),
            ids@ == g@.order,
            forall|id: NodeId| #[trigger] g@.nodes.contains_key(id) <==> g@.order.contains(id),
            asked is Some <==> names is Some,
            asked matches Some(t) ==> (names matches Some(v) && text::views(v@) == text::pieces(
                t,
                CharClass::Is(','),
            )),
            out@ == wanted_ids(g@, ids@.take(i as int), asked),
            forall|j: int| 0 <= j < out@.len() ==> g@.nodes.contains_key(#[trigger] out@[j]),
    {
        assert(ids@.take(i + 1).drop_last() =~= ids@.take(i as int));
        assert(g@.order.contains(ids@[i as int]));
        match g.get(ids[i]) {
            Some(node) => {
                let keep: bool = match &names {
                    Some(v) => kind_is_named(v, node.kind),
                    None => true,
                };
                if keep {
                    out.push(ids[i]);
                }
            },
            None => {},
        }
    }
    assert(ids@.take(n as int) =~= ids@);
    out
}

fn set_of(ids: &Vec<NodeId>) -> (r: HashSet<NodeId>)
    ensures
        r@ == ids@.to_set(),
{
    let mut out: HashSet<NodeId> = HashSet::new();
    let n: usize = ids.len();
    assert(ids@.take(0).to_set() =~= Set::empty());
    for i in 0..n
        invariant
            n == ids@.len(),
            out@ == ids@.take(i as int).to_set(),
    {
        out.insert(ids[i]);
        let ghost (a, b) = (ids@.take(i as int), ids@.take(i + 1));
        assert forall|x: NodeId| #[trigger] out@.contains(x) <==> b.to_set().contains(x) by {
            if b.contains(x) {
                let j = choose|j: int| 0 <= j < b.len() && b[j] == x;
                if j < i {
                    assert(a[j] == x);
                }
            }
            if a.contains(x) {
                let j = choose|j: int| 0 <= j < a.len() && a[j] == x;
                assert(b[j] == x);
            }
            assert(b[i as int] == ids@[i as int]);
        }
        assert(out@ =~= b.to_set());
    }
    assert(ids@.take(n as int) =~= ids@);
    out
}

fn list_edges(g: &MemGraph, ids: &Vec<NodeId>) -> (r: Vec<WireEdge>)
    ensures
        wire_edges(r@) == wire_all(edges_among(g@.edges, ids@)),
{
    let inside = set_of(ids);
    let edges = g.edges();
    let mut out: Vec<WireEdge> = Vec::new();
    let n: usize = edges.len();
    let ghost views = g@.edges;
    assert(views.take(0) =~= Seq::empty());
    assert(wire_edges(out@) =~= wire_all(edges_among(views.take(0), ids@)));
    for i in 0..n
        invariant
            n == edges@.len() == views.len(),
            views == graph::edge_views(edges@),
            inside@ == ids@.to_set(),
            wire_edges(out@) == wire_all(edges_among(views.take(i as int), ids@)),
    {
        assert(views.take(i + 1).drop_last() =~= views.take(i as int));
        assert(views.take(i + 1).last() == edges@[i as int]@);
        let ghost before = out@;
        let ghost kept = edges_among(views.take(i as int), ids@);
        if inside.contains(&edges[i].from) && inside.contains(&edges[i].to) {
            let w = WireEdge::of(&edges[i]);
            out.push(w);
            assert(wire_edges(out@) =~= wire_edges(before).push(w@));
            assert(wire_all(kept.push(edges@[i as int]@)) =~= wire_all(kept).push(w@));
        }
    }
    assert(views.take(n as int) =~= views);
    out
}

/// The ids of a bounded slice: of the kinds that are asked for, the latest change first.
pub open spec fn slice_ids(g: GraphV, limit: Option<usize>, types: Option<Seq<char>>) -> Seq<NodeId> {
    let ids = wanted_ids(g, g.order, types);
    first_ranked(ids, by_update(g, ids), bounded(limit, 400, 5000))
}

/// A bounded slice of the graph: the nodes of the kinds that are asked for, the latest change
/// first, and the edges between them.
pub fn graph_slice(g: &MemGraph, limit: Option<usize>, types: Option<&str>) -> (r: WireGraph)
    requires
        g.wf(),
    ensures
        ({
            let ids = slice_ids(g@, limit, crate::coderepo::slice_opt(types));
            &&& wire_nodes(r.nodes@) == bulk_all(nodes_at(g@, ids))
            &&& wire_edges(r.edges@) == wire_all(edges_among(g@.edges, ids))
        }),
{
    let ids = choose_ids(g, types);
    let keys = ListOrder::Updated.keys_of(g, &ids);
    let chosen = rank_ids(&ids, &keys, bound(limit, 400, 5000));
    assert forall|i: int| 0 <= i < chosen@.len() implies g@.nodes.contains_key(
        #[trigger] chosen@[i],
    ) by {
        assert(ids@.contains(chosen@[i]));
        let j = choose|j: int| 0 <= j < ids@.len() && ids@[j] == chosen@[i];
        assert(g@.nodes.contains_key(ids@[j]));
    }
    WireGraph { nodes: list_nodes(g, &chosen), edges: list_edges(g, &chosen) }
}

// ---------------------------------------------------------------------------
// Neighbourhoods, nodes, the timeline
// ---------------------------------------------------------------------------

fn bulk_list(nodes: &Vec<Node>) -> (r: Vec<WireNode>)
    ensures
        wire_nodes(r@) == bulk_all(graph::node_views(nodes@)),
{
    let mut out: Vec<WireNode> = Vec::new();
    let n: usize = nodes.len();
    for i in 0..n
        invariant
            n == nodes@.len(),
            out@.len() == i,
            forall|j: int| 0 <= j < i ==> (#[trigger] out@[j])@ == bulk_of(nodes@[j]@),
    {
        out.push(WireNode::bulk(&nodes[i]));
    }
    assert(wire_nodes(out@) =~= bulk_all(graph::node_views(nodes@)));
    out
}

fn wire_list(edges: &Vec<Edge>) -> (r: Vec<WireEdge>)
    ensures
        wire_edges(r@) == wire_all(graph::edge_views(edges@)),
{
    let mut out: Vec<WireEdge> = Vec::new();
    let n: usize = edges.len();
    for i in 0..n
        invariant
            n == edges@.len(),
            out@.len() == i,
            forall|j: int| 0 <= j < i ==> (#[trigger] out@[j])@ == wire_edge(edges@[j]@),
    {
        out.push(WireEdge::of(&edges[i]));
    }
    assert(wire_edges(out@) =~= wire_all(graph::edge_views(edges@)));
    out
}

/// Whether a part on the wire is the neighbourhood of a node.
pub open spec fn is_neighborhood(r: WireGraph, g: GraphV, id: NodeId, depth: nat) -> bool {
    let near = graph::within(g.edges, id, depth);
    &&& wire_nodes(r.nodes@) == bulk_all(graph::nodes_of(g.nodes, near))
    &&& exists|edges: Seq<EdgeV>| #[trigger]
        graph::lists_edges(edges, g.edges, near) && wire_edges(r.edges@) == wire_all(edges)
}

/// The neighbourhood of a node up to three steps: nothing where the id is not a number or no
/// node has it.
pub fn neighbors(g: &MemGraph, id: &str, depth: Option<usize>) -> (r: WireGraph)
    requires
        g.wf(),
    ensures
        match decimal::parsed(id@) {
            Some(x) if g@.nodes.contains_key(x) => is_neighborhood(r, g@, x, bounded(depth, 1, 3)),
            _ => r.nodes@.len() == 0 && r.edges@.len() == 0,
        },
{
    match decimal::parse_id(id) {
        Some(x) => {
            let (nodes, edges) = g.neighbors(x, bound(depth, 1, 3));
            let r = WireGraph { nodes: bulk_list(&nodes), edges: wire_list(&edges) };
            proof {
                assert(wire_nodes(r.nodes@).len() == graph::node_views(nodes@).len());
                assert(wire_edges(r.edges@).len() == graph::edge_views(edges@).len());
                if g@.nodes.contains_key(x) {
                    let near = graph::within(g@.edges, x, bounded(depth, 1, 3));
                    assert(graph::lists_edges(graph::edge_views(edges@), g@.edges, near));
                }
            }
            r
        },
        None => WireGraph { nodes: Vec::new(), edges: Vec::new() },
    }
}

/// A node with its body: nothing where the id is not a number or no node has it.
pub fn node_detail(g: &MemGraph, id: &str) -> (r: Option<WireNode>)
    ensures
        match decimal::parsed(id@) {
            Some(x) if g@.nodes.contains_key(x) => r matches Some(n) && n@ == detail_of(g@.nodes[x]),
            _ => r is None,
        },
{
    match decimal::parse_id(id) {
        Some(x) => match g.get(x) {
            Some(n) => Some(WireNode::detail(n)),
            None => None,
        },
        None => None,
    }
}

/// The nodes by when they were first seen, the earliest first.
pub fn timeline(g: &MemGraph, limit: Option<usize>) -> (r: Vec<WireNode>)
    requires
        g.wf(),
    ensures
        wire_nodes(r@) == bulk_all(
            nodes_at(g@, listing(g@, ListOrder::Oldest, bounded(limit, 200, 2000))),
        ),
{
    let ids = list_ids(g, ListOrder::Oldest, bound(limit, 200, 2000));
    list_nodes(g, &ids)
}

/// How many results a search gives.
pub fn search_size(k: Option<usize>) -> (r: usize)
    ensures
        r == bounded(k, 12, 100),
{
    bound(k, 12, 100)
}

// ---------------------------------------------------------------------------
// Laws
// ---------------------------------------------------------------------------

/// A listing never carries a body, and a single node always does.
pub proof fn only_details_carry_bodies(n: NodeV)
    ensures
        bulk_of(n).body is None,
        detail_of(n).body == Some(n.body),
        bulk_of(n) == (WireNodeV { body: None, ..detail_of(n) }),
{
}

/// A slice is bounded, and its nodes are of the kinds that were asked for.
pub proof fn slice_is_bounded(g: GraphV, limit: Option<usize>, types: Option<Seq<char>>, i: int)
    requires
        g.order.len() <= usize::MAX,
        0 <= i < slice_ids(g, limit, types).len(),
    ensures
        slice_ids(g, limit, types).len() <= 5000,
        g.order.contains(slice_ids(g, limit, types)[i]),
        wanted(g.nodes[slice_ids(g, limit, types)[i]].kind, types),
{
    let ids = wanted_ids(g, g.order, types);
    let keys = by_update(g, ids);
    lemma_wanted(g, g.order, types);
    rank::lemma_ranking_exists(keys);
    let order = rank::ranking(keys);
    assert(order.contains(order[i]));
    assert(ids[order[i] as int] == slice_ids(g, limit, types)[i]);
}

proof fn lemma_wanted(g: GraphV, ids: Seq<NodeId>, types: Option<Seq<char>>)
    ensures
        wanted_ids(g, ids, types).len() <= ids.len(),
        forall|i: int|
            0 <= i < wanted_ids(g, ids, types).len() ==> ids.contains(
                #[trigger] wanted_ids(g, ids, types)[i],
            ) && wanted(g.nodes[wanted_ids(g, ids, types)[i]].kind, types),
    decreases ids.len(),
{
    if ids.len() != 0 {
        let init = ids.drop_last();
        lemma_wanted(g, init, types);
        let before = wanted_ids(g, init, types);
        let all = wanted_ids(g, ids, types);
        assert forall|i: int| 0 <= i < all.len() implies ids.contains(#[trigger] all[i]) && wanted(
            g.nodes[all[i]].kind,
            types,
        ) by {
            if i < before.len() {
                assert(before[i] == all[i]);
                let j = choose|j: int| 0 <= j < init.len() && init[j] == before[i];
                assert(ids[j] == all[i]);
            } else {
                assert(ids[ids.len() - 1] == all[i]);
            }
        }
    }
}

/// An edge of a slice never dangles: both its ends are among the nodes.
pub proof fn slice_edges_stay_inside(edges: Seq<EdgeV>, ids: Seq<NodeId>, i: int)
    requires
        0 <= i < edges_among(edges, ids).len(),
    ensures
        edges.contains(edges_among(edges, ids)[i]),
        ids.contains(edges_among(edges, ids)[i].from),
        ids.contains(edges_among(edges, ids)[i].to),
    decreases edges.len(),
{
    let init = edges.drop_last();
    let before = edges_among(init, ids);
    if i < before.len() {
        slice_edges_stay_inside(init, ids, i);
        let j = choose|j: int| 0 <= j < init.len() && init[j] == before[i];
        assert(edges[j] == before[i]);
    } else {
        assert(edges[edges.len() - 1] == edges_among(edges, ids)[i]);
    }
}

/// The timeline puts what was seen first before what was seen later.
pub proof fn timeline_is_in_order(g: GraphV, limit: nat, i: int, j: int)
    requires
        g.order.len() <= usize::MAX,
        0 <= i <= j < listing(g, ListOrder::Oldest, limit).len(),
    ensures
        g.nodes[listing(g, ListOrder::Oldest, limit)[i]].first_seen_ms <= g.nodes[listing(
            g,
            ListOrder::Oldest,
            limit,
        )[j]].first_seen_ms,
{
    let keys = by_age(g, g.order);
    rank::lemma_ranking_exists(keys);
    let order = rank::ranking(keys);
    assert(order.contains(order[i]) && order.contains(order[j]));
    if i < j {
        assert(rank::before(keys, order[i], order[j]));
    }
}

/// What a node says on the wire: its id in decimal, the tag of its kind, its label, and all
/// that is known of where and when it comes from.
pub proof fn nodes_say_all_on_the_wire(n: NodeV)
    ensures
        bulk_of(n).id == decimal::decimal(n.id as nat),
        bulk_of(n).kind == n.kind.name(),
        bulk_of(n).label == n.label,
        bulk_of(n).provenance == n.provenance,
        bulk_of(n).attrs == n.attrs,
        bulk_of(n).first_seen_ms == n.first_seen_ms,
        bulk_of(n).last_updated_ms == n.last_updated_ms,
        n.summary.len() != 0 ==> bulk_of(n).summary == n.summary,
        n.summary.len() == 0 && n.body.len() != 0 ==> bulk_of(n).summary == model::summary_of(n.body),
        n.summary.len() == 0 && n.body.len() == 0 ==> bulk_of(n).summary == n.label,
{
}

/// What an edge says on the wire: where it comes from, where it goes, its kind and its weight.
pub proof fn edges_say_all_on_the_wire(e: EdgeV)
    ensures
        wire_edge(e).from == decimal::decimal(e.from as nat),
        wire_edge(e).to == decimal::decimal(e.to as nat),
        wire_edge(e).kind == e.kind.name(),
        wire_edge(e).weight == e.weight,
{
}

/// All the edges between the nodes of a slice are in it, in their order.
pub proof fn no_edge_of_a_slice_is_left_out(edges: Seq<EdgeV>, ids: Seq<NodeId>)
    ensures
        edges_among(edges, ids) == edges.filter(
            |e: EdgeV| ids.contains(e.from) && ids.contains(e.to),
        ),
    decreases edges.len(),
{
    reveal(Seq::filter);
    if edges.len() != 0 {
        no_edge_of_a_slice_is_left_out(edges.drop_last(), ids);
    }
}

/// A kind is asked for by its name or its tag, in whatever case, between commas and blanks; all
/// are where none is named.
pub proof fn kinds_are_asked_for_by_name(types: Seq<char>, kind: NodeKind, a: int, b: int)
    requires
        0 <= a <= b <= types.len(),
        a == 0 || types[a - 1] == ',',
        b == types.len() || types[b] == ',',
        forall|j: int| a <= j < b ==> #[trigger] types[j] != ',',
        text::ascii_lowered(text::trimmed(types.subrange(a, b))) == text::ascii_lowered(
            kind.title_of(),
        ) || text::ascii_lowered(text::trimmed(types.subrange(a, b))) == text::ascii_lowered(
            kind.name(),
        ),
    ensures
        wanted(kind, Some(types)),
        wanted(kind, None),
{
    text::every_piece_is_found(types, ',', a, b);
    let names = text::pieces(types, CharClass::Is(','));
    let i = choose|i: int| 0 <= i < names.len() && names[i] == types.subrange(a, b);
    assert(is_name_of(names[i], kind));
}

/// All the nodes of the kinds that are asked for are candidates for a slice, in their order.
pub proof fn wanted_nodes_are_candidates(g: GraphV, ids: Seq<NodeId>, types: Option<Seq<char>>)
    ensures
        wanted_ids(g, ids, types) == ids.filter(|id: NodeId| wanted(g.nodes[id].kind, types)),
    decreases ids.len(),
{
    reveal(Seq::filter);
    if ids.len() != 0 {
        wanted_nodes_are_candidates(g, ids.drop_last(), types);
    }
}

/// A listing gives as many nodes as were asked for, where there are so many, and leaves out
/// none that would come before a listed one.
pub proof fn listings_leave_out_nothing_better(
    ids: Seq<NodeId>,
    keys: Seq<i64>,
    limit: nat,
    x: int,
    i: int,
)
    requires
        ids.len() == keys.len() <= usize::MAX,
        0 <= x < ids.len(),
        0 <= i < first_ranked(ids, keys, limit).len(),
    ensures
        first_ranked(ids, keys, limit).len() == (if limit < ids.len() {
            limit
        } else {
            ids.len()
        }),
        first_ranked(ids, keys, limit).contains(ids[x]) || exists|y: int|
            0 <= y < ids.len() && #[trigger] ids[y] == first_ranked(ids, keys, limit)[i] && keys[y]
                >= keys[x],
{
    rank::lemma_ranking_exists(keys);
    let order = rank::ranking(keys);
    let all = first_ranked(ids, keys, limit);
    assert(order.contains(order[i]) && order.contains(x as usize));
    let p = choose|p: int| 0 <= p < order.len() && order[p] == x as usize;
    if p < all.len() {
        assert(all[p] == ids[x]);
    } else {
        assert(rank::before(keys, order[i], order[p]));
        assert(ids[order[i] as int] == all[i]);
    }
}

/// What each order puts first: the latest change, the latest first sight, or the earliest.
pub proof fn orders_put_these_first(g: GraphV, ids: Seq<NodeId>, i: int, j: int)
    requires
        0 <= i < ids.len(),
        0 <= j < ids.len(),
    ensures
        ListOrder::Updated.keys(g, ids)[i] > ListOrder::Updated.keys(g, ids)[j]
            <==> g.nodes[ids[i]].last_updated_ms > g.nodes[ids[j]].last_updated_ms,
        ListOrder::Newest.keys(g, ids)[i] > ListOrder::Newest.keys(g, ids)[j]
            <==> g.nodes[ids[i]].first_seen_ms > g.nodes[ids[j]].first_seen_ms,
        ListOrder::Oldest.keys(g, ids)[i] > ListOrder::Oldest.keys(g, ids)[j]
            <==> g.nodes[ids[i]].first_seen_ms < g.nodes[ids[j]].first_seen_ms,
        ListOrder::Updated.keys(g, ids).len() == ids.len(),
        ListOrder::Newest.keys(g, ids).len() == ids.len(),
        ListOrder::Oldest.keys(g, ids).len() == ids.len(),
{
}

/// A number that is given stands where it is not too great; the default stands where none is.
pub proof fn numbers_are_bounded(x: usize, default: usize, most: usize)
    ensures
        x <= most ==> bounded(Some(x), default, most) == x,
        x > most ==> bounded(Some(x), default, most) == most,
        default <= most ==> bounded(None, default, most) == default,
{
}

/// A neighbourhood holds every node within reach and every edge between two of them.
pub proof fn neighbourhoods_are_whole(r: WireGraph, g: GraphV, id: NodeId, depth: nat, x: NodeId, i: int)
    requires
        is_neighborhood(r, g, id, depth),
        graph::within(g.edges, id, depth).contains(x),
    ensures
        wire_nodes(r.nodes@).contains(bulk_of(g.nodes[x])),
        0 <= i < g.edges.len() && graph::within(g.edges, id, depth).contains(g.edges[i].from)
            && graph::within(g.edges, id, depth).contains(g.edges[i].to) ==> wire_edges(
            r.edges@,
        ).contains(wire_edge(g.edges[i])),
{
    let near = graph::within(g.edges, id, depth);
    graph::neighbourhoods_are_listed(g.edges, id, depth);
    let ids = rank::ids_in_order(near);
    assert(ids.contains(x));
    let a = choose|a: int| 0 <= a < ids.len() && ids[a] == x;
    assert(bulk_all(graph::nodes_of(g.nodes, near))[a] == bulk_of(g.nodes[x]));
    if 0 <= i < g.edges.len() && near.contains(g.edges[i].from) && near.contains(g.edges[i].to) {
        let edges = choose|edges: Seq<EdgeV>| #[trigger]
            graph::lists_edges(edges, g.edges, near) && wire_edges(r.edges@) == wire_all(edges);
        assert(edges.contains(g.edges[i]));
        let k = choose|k: int| 0 <= k < edges.len() && edges[k] == g.edges[i];
        assert(wire_all(edges)[k] == wire_edge(g.edges[i]));
    }
}

/// No kind is given that was not asked for: its name or its tag stands between two commas.
pub proof fn only_named_kinds_are_given(types: Seq<char>, kind: NodeKind)
    requires
        wanted(kind, Some(types)),
    ensures
        exists|i: int|
            0 <= i < text::pieces(types, CharClass::Is(',')).len() && (text::ascii_lowered(
                text::trimmed(#[trigger] text::pieces(types, CharClass::Is(','))[i]),
            ) == text::ascii_lowered(kind.title_of()) || text::ascii_lowered(
                text::trimmed(text::pieces(types, CharClass::Is(','))[i]),
            ) == text::ascii_lowered(kind.name())),
{
    let names = text::pieces(types, CharClass::Is(','));
    let i = choose|i: int| 0 <= i < names.len() && is_name_of(#[trigger] names[i], kind);
    assert(is_name_of(names[i], kind));
}

/// A neighbourhood holds no node out of reach, and no edge that leads there.
pub proof fn neighbourhoods_hold_nothing_else(r: WireGraph, g: GraphV, id: NodeId, depth: nat, i: int)
    requires
        is_neighborhood(r, g, id, depth),
    ensures
        0 <= i < r.nodes@.len() ==> exists|x: NodeId| #[trigger]
            graph::within(g.edges, id, depth).contains(x) && r.nodes@[i]@ == bulk_of(g.nodes[x]),
        0 <= i < r.edges@.len() ==> exists|j: int|
            0 <= j < g.edges.len() && r.edges@[i]@ == wire_edge(#[trigger] g.edges[j])
                && graph::within(g.edges, id, depth).contains(g.edges[j].from) && graph::within(
                g.edges,
                id,
                depth,
            ).contains(g.edges[j].to),
{
    let near = graph::within(g.edges, id, depth);
    graph::neighbourhoods_are_listed(g.edges, id, depth);
    let ids = rank::ids_in_order(near);
    if 0 <= i < r.nodes@.len() {
        assert(wire_nodes(r.nodes@)[i] == r.nodes@[i]@);
        assert(wire_nodes(r.nodes@).len() == bulk_all(graph::nodes_of(g.nodes, near)).len());
        assert(i < ids.len());
        assert(bulk_all(graph::nodes_of(g.nodes, near))[i] == bulk_of(g.nodes[ids[i]]));
        assert(ids.contains(ids[i]));
        assert(near.contains(ids[i]));
    }
    if 0 <= i < r.edges@.len() {
        let edges = choose|edges: Seq<EdgeV>| #[trigger]
            graph::lists_edges(edges, g.edges, near) && wire_edges(r.edges@) == wire_all(edges);
        assert(wire_edges(r.edges@)[i] == r.edges@[i]@);
        assert(wire_edges(r.edges@).len() == wire_all(edges).len());
        assert(i < edges.len());
        assert(wire_all(edges)[i] == wire_edge(edges[i]));
        assert(g.edges.contains(edges[i]));
        let j = choose|j: int| 0 <= j < g.edges.len() && g.edges[j] == edges[i];
        assert(r.edges@[i]@ == wire_edge(g.edges[j]));
    }
}

/// What a node on the wire says: all that it holds.
pub proof fn wire_node_views_say_all(x: WireNode)
    ensures
        x@.id == x.id@,
        x@.kind == x.kind@,
        x@.label == x.label@,
        x@.summary == x.summary@,
        x@.body == model::opt(x.body),
        x@.provenance == model::provenance_view(x.provenance),
        x@.attrs == x.attrs@,
        x@.first_seen_ms == x.first_seen_ms,
        x@.last_updated_ms == x.last_updated_ms,
{
}

/// What an edge on the wire says: all that it holds.
pub proof fn wire_edge_views_say_all(x: WireEdge)
    ensures
        x@.from == x.from@,
        x@.to == x.to@,
        x@.kind == x.kind@,
        x@.weight == x.weight,
{
}

/// Viewing a list keeps all its items, in their order.
pub proof fn wire_nodes_keep_all(v: Seq<WireNode>, i: int)
    requires
        0 <= i < v.len(),
    ensures
        wire_nodes(v).len() == v.len(),
        wire_nodes(v)[i] == v[i]@,
{
}

/// Viewing a list keeps all its items, in their order.
pub proof fn wire_edges_keep_all(v: Seq<WireEdge>, i: int)
    requires
        0 <= i < v.len(),
    ensures
        wire_edges(v).len() == v.len(),
        wire_edges(v)[i] == v[i]@,
{
}

/// A listing shows every node and every edge that it is made of, in their order.
pub proof fn listings_show_everything(
    g: GraphV,
    nodes: Seq<NodeV>,
    edges: Seq<EdgeV>,
    ids: Seq<NodeId>,
    i: int,
)
    ensures
        bulk_all(nodes).len() == nodes.len(),
        0 <= i < nodes.len() ==> bulk_all(nodes)[i] == bulk_of(nodes[i]),
        wire_all(edges).len() == edges.len(),
        0 <= i < edges.len() ==> wire_all(edges)[i] == wire_edge(edges[i]),
        nodes_at(g, ids).len() == ids.len(),
        0 <= i < ids.len() ==> nodes_at(g, ids)[i] == g.nodes[ids[i]],
{
}

} // verus!
