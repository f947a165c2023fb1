//! The in-memory graph: idempotent upserts by content-addressed id, bounded neighbourhoods,
//! and the chain of superseded decisions.

use std::collections::HashMap;
use std::collections::HashSet;

use vstd::prelude::*;

use petgraph::stable_graph::StableGraph;
use petgraph::Directed;

use crate::model::{Edge, EdgeKind, EdgeV, Node, NodeId, NodeV, ProvenanceV};
use crate::netgraph;
use crate::rank;

verus! {

broadcast use {
    vstd::std_specs::hash::group_hash_axioms,
    vstd::multiset::group_multiset_axioms,
};

// ---------------------------------------------------------------------------
// What a graph is
// ---------------------------------------------------------------------------

/// A graph: its nodes by id, the order in which they came, and its edges in order.
#[verifier::ext_equal]
pub struct GraphV {
    pub nodes: Map<NodeId, NodeV>,
    pub order: Seq<NodeId>,
    pub edges: Seq<EdgeV>,
}

/// The richer of two provenances: the older one unless the newer one has a higher priority.
pub open spec fn kept_provenance(older: Option<ProvenanceV>, newer: Option<ProvenanceV>) -> Option<
    ProvenanceV,
> {
    match (older, newer) {
        (Some(o), Some(n)) => if o.source_priority >= n.source_priority {
            Some(o)
        } else {
            Some(n)
        },
        (Some(o), None) => Some(o),
        (None, n) => n,
    }
}

/// A node that was there already, merged with a newer copy: the earliest first sight, the
/// latest update, the newer text where there is any, the richer provenance, and the newer
/// attributes over the older ones.
pub open spec fn merged(older: NodeV, newer: NodeV) -> NodeV {
    NodeV {
        first_seen_ms: if older.first_seen_ms <= newer.first_seen_ms {
            older.first_seen_ms
        } else {
            newer.first_seen_ms
        },
        last_updated_ms: if older.last_updated_ms >= newer.last_updated_ms {
            older.last_updated_ms
        } else {
            newer.last_updated_ms
        },
        body: if newer.body.len() == 0 {
            older.body
        } else {
            newer.body
        },
        summary: if newer.summary.len() == 0 {
            older.summary
        } else {
            newer.summary
        },
        provenance: kept_provenance(older.provenance, newer.provenance),
        attrs: older.attrs.union_prefer_right(newer.attrs),
        ..newer
    }
}

/// The graph after a node was inserted or merged.
pub open spec fn with_node(g: GraphV, n: NodeV) -> GraphV {
    if g.nodes.contains_key(n.id) {
        GraphV { nodes: g.nodes.insert(n.id, merged(g.nodes[n.id], n)), ..g }
    } else {
        GraphV { nodes: g.nodes.insert(n.id, n), order: g.order.push(n.id), ..g }
    }
}

/// Whether two edges have the same ends and the same kind.
pub open spec fn same_key(a: EdgeV, b: EdgeV) -> bool {
    a.from == b.from && a.to == b.to && a.kind == b.kind
}

/// Whether an edge with the ends and the kind of `e` is there.
pub open spec fn has_key(edges: Seq<EdgeV>, e: EdgeV) -> bool {
    exists|i: int| 0 <= i < edges.len() && same_key(#[trigger] edges[i], e)
}

/// Whether an edge is new and both its ends are there.
pub open spec fn admits_edge(g: GraphV, e: EdgeV) -> bool {
    g.nodes.contains_key(e.from) && g.nodes.contains_key(e.to) && !has_key(g.edges, e)
}

/// The graph after an edge was offered.
pub open spec fn with_edge(g: GraphV, e: EdgeV) -> GraphV {
    if admits_edge(g, e) {
        GraphV { edges: g.edges.push(e), ..g }
    } else {
        g
    }
}

/// The positions of the edges at a node, in order.
pub open spec fn incident(edges: Seq<EdgeV>, id: NodeId) -> Seq<usize>
    decreases edges.len(),
{
    if edges.len() == 0 {
        Seq::empty()
    } else {
        let rest = incident(edges.drop_last(), id);
        if edges.last().from == id || edges.last().to == id {
            rest.push((edges.len() - 1) as usize)
        } else {
            rest
        }
    }
}

/// Which node each superseded node was replaced by: of several, the last.
pub open spec fn superseders(edges: Seq<EdgeV>) -> Map<NodeId, NodeId>
    decreases edges.len(),
{
    if edges.len() == 0 {
        Map::empty()
    } else {
        let rest = superseders(edges.drop_last());
        if edges.last().kind == EdgeKind::Supersedes {
            rest.insert(edges.last().to, edges.last().from)
        } else {
            rest
        }
    }
}

/// What stands `n` steps up the chain; nothing past its end.
pub open spec fn nth_superseder(sup: Map<NodeId, NodeId>, id: NodeId, n: nat) -> Option<NodeId>
    decreases n,
{
    if n == 0 {
        Some(id)
    } else {
        match nth_superseder(sup, id, (n - 1) as nat) {
            Some(x) => if sup.contains_key(x) {
                Some(sup[x])
            } else {
                None
            },
            None => None,
        }
    }
}

/// Whether `head` is the end of the chain above `id`: at least one step up, and itself not
/// superseded.
pub open spec fn chain_head(sup: Map<NodeId, NodeId>, id: NodeId, head: NodeId) -> bool {
    exists|n: nat|
        n >= 1 && #[trigger] nth_superseder(sup, id, n) == Some(head) && !sup.contains_key(head)
}

/// Whether an edge joins two nodes, in either direction.
pub open spec fn joins(e: EdgeV, a: NodeId, b: NodeId) -> bool {
    (e.from == a && e.to == b) || (e.from == b && e.to == a)
}

/// Whether some edge joins two nodes.
pub open spec fn linked(edges: Seq<EdgeV>, a: NodeId, b: NodeId) -> bool {
    exists|i: int| 0 <= i < edges.len() && joins(#[trigger] edges[i], a, b)
}

/// The nodes within `depth` steps of `start`, along edges in either direction.
pub open spec fn within(edges: Seq<EdgeV>, start: NodeId, depth: nat) -> Set<NodeId>
    decreases depth,
{
    if depth == 0 {
        set![start]
    } else {
        let near = within(edges, start, (depth - 1) as nat);
        Set::new(|b: NodeId| near.contains(b) || exists|a: NodeId| #[trigger]
            near.contains(a) && linked(edges, a, b))
    }
}

/// The views of a list of edges.
pub open spec fn edge_views(v: Seq<Edge>) -> Seq<EdgeV> {
    v.map_values(|e: Edge| e@)
}

/// The views of a list of nodes.
pub open spec fn node_views(v: Seq<Node>) -> Seq<NodeV> {
    v.map_values(|n: Node| n@)
}

proof fn lemma_incident(edges: Seq<EdgeV>, id: NodeId)
    requires
        edges.len() <= usize::MAX,
    ensures
        forall|k: int|
            0 <= k < incident(edges, id).len() ==> (#[trigger] incident(edges, id)[k]) < edges.len()
                && (edges[incident(edges, id)[k] as int].from == id || edges[incident(
                edges,
                id,
            )[k] as int].to == id),
        forall|i: int|
            0 <= i < edges.len() && ((#[trigger] edges[i]).from == id || edges[i].to == id)
                ==> incident(edges, id).contains(i as usize),
        incident(edges, id).no_duplicates(),
    decreases edges.len(),
{
    if edges.len() != 0 {
        let rest = edges.drop_last();
        lemma_incident(rest, id);
        let r = incident(rest, id);
        let all = incident(edges, id);
        let last = edges.len() - 1;
        assert forall|k: int| 0 <= k < all.len() implies (#[trigger] all[k]) < edges.len() && (
        edges[all[k] as int].from == id || edges[all[k] as int].to == id) by {
            if k < r.len() {
                assert(all[k] == r[k]);
                assert(rest[r[k] as int] == edges[r[k] as int]);
            }
        }
        assert forall|i: int|
            0 <= i < edges.len() && ((#[trigger] edges[i]).from == id || edges[i].to
                == id) implies all.contains(i as usize) by {
            if i < last {
                assert(rest[i] == edges[i]);
                let k = choose|k: int| 0 <= k < r.len() && r[k] == i as usize;
                assert(all[k] == i as usize);
            } else {
                assert(all[r.len() as int] == i as usize);
            }
        }
        if all.len() > r.len() {
            assert forall|x: int, y: int| 0 <= x < y < all.len() implies all[x] != all[y] by {
                assert(all[x] == r[x]);
                assert(r[x] < rest.len());
            }
        }
    }
}

proof fn lemma_superseders(edges: Seq<EdgeV>, ids: Set<NodeId>)
    requires
        forall|i: int|
            0 <= i < edges.len() ==> ids.contains((#[trigger] edges[i]).from) && ids.contains(
                edges[i].to,
            ),
    ensures
        forall|k: NodeId| #[trigger]
            superseders(edges).contains_key(k) ==> ids.contains(k) && ids.contains(
                superseders(edges)[k],
            ),
    decreases edges.len(),
{
    if edges.len() != 0 {
        let rest = edges.drop_last();
        assert forall|i: int| 0 <= i < rest.len() implies ids.contains((#[trigger] rest[i]).from)
            && ids.contains(rest[i].to) by {
            assert(rest[i] == edges[i]);
        }
        lemma_superseders(rest, ids);
        let last = edges[edges.len() - 1];
        assert(ids.contains(last.from));
        assert forall|k: NodeId| #[trigger] superseders(edges).contains_key(k) implies ids.contains(k)
            && ids.contains(superseders(edges)[k]) by {
            if !(last.kind == EdgeKind::Supersedes && k == last.to) {
                assert(superseders(rest).contains_key(k));
            }
        }
    }
}

proof fn lemma_chain_prefix(sup: Map<NodeId, NodeId>, id: NodeId, n: nat, k: nat)
    requires
        nth_superseder(sup, id, n) is Some,
        k < n,
    ensures
        nth_superseder(sup, id, k) is Some,
        sup.contains_key(nth_superseder(sup, id, k)->0),
    decreases n,
{
    if k + 1 < n {
        lemma_chain_prefix(sup, id, (n - 1) as nat, k);
    }
}

proof fn lemma_chain_shift(sup: Map<NodeId, NodeId>, id: NodeId, i: nat, j: nat, t: nat)
    requires
        nth_superseder(sup, id, i) == nth_superseder(sup, id, j),
    ensures
        nth_superseder(sup, id, i + t) == nth_superseder(sup, id, j + t),
    decreases t,
{
    if t > 0 {
        lemma_chain_shift(sup, id, i, j, (t - 1) as nat);
    }
}

proof fn lemma_no_head_above_cycle(
    sup: Map<NodeId, NodeId>,
    id: NodeId,
    i: nat,
    j: nat,
    head: NodeId,
)
    requires
        i < j,
        nth_superseder(sup, id, i) is Some,
        nth_superseder(sup, id, i) == nth_superseder(sup, id, j),
    ensures
        !chain_head(sup, id, head),
{
    if chain_head(sup, id, head) {
        let m = choose|n: nat|
            n >= 1 && #[trigger] nth_superseder(sup, id, n) == Some(head) && !sup.contains_key(head);
        if m < j {
            lemma_chain_prefix(sup, id, j, m);
        } else {
            lemma_chain_shift(sup, id, i, j, (m - j) as nat);
            lemma_chain_prefix(sup, id, m, (i + m - j) as nat);
        }
    }
}

/// A chain has one end at most.
pub proof fn chain_head_unique(sup: Map<NodeId, NodeId>, id: NodeId, a: NodeId, b: NodeId)
    requires
        chain_head(sup, id, a),
        chain_head(sup, id, b),
    ensures
        a == b,
{
    let m = choose|n: nat|
        n >= 1 && #[trigger] nth_superseder(sup, id, n) == Some(a) && !sup.contains_key(a);
    let k = choose|n: nat|
        n >= 1 && #[trigger] nth_superseder(sup, id, n) == Some(b) && !sup.contains_key(b);
    if m < k {
        lemma_chain_prefix(sup, id, k, m);
    } else if k < m {
        lemma_chain_prefix(sup, id, m, k);
    }
}

/// The positions noted for a node.
spec fn noted(adj: Map<NodeId, Vec<usize>>, id: NodeId) -> Seq<usize> {
    if adj.contains_key(id) {
        adj[id]@
    } else {
        Seq::empty()
    }
}

fn note(adj: &mut HashMap<NodeId, Vec<usize>>, id: NodeId, at: usize)
    ensures
        forall|x: NodeId| #[trigger]
            noted(final(adj)@, x) == (if x == id {
                noted(old(adj)@, x).push(at)
            } else {
                noted(old(adj)@, x)
            }),
{
    let mut v: Vec<usize> = match adj.remove(&id) {
        Some(v) => v,
        None => Vec::new(),
    };
    v.push(at);
    adj.insert(id, v);
}

/// Adds to `found` what `list` holds and `seen` does not.
fn take_in(found: &mut Vec<usize>, seen: &mut HashSet<usize>, list: &Vec<usize>)
    requires
        old(found)@.no_duplicates(),
        forall|x: usize| #[trigger] old(seen)@.contains(x) <==> old(found)@.contains(x),
    ensures
        final(found)@.no_duplicates(),
        forall|x: usize| #[trigger] final(seen)@.contains(x) <==> final(found)@.contains(x),
        old(found)@.len() <= final(found)@.len(),
        final(found)@.take(old(found)@.len() as int) == old(found)@,
        forall|x: usize| #[trigger]
            final(found)@.contains(x) <==> old(found)@.contains(x) || list@.contains(x),
{
    let ghost was = found@;
    let n: usize = list.len();
    assert(found@.take(was.len() as int) =~= was);
    for i in 0..n
        invariant
            n == list@.len(),
            found@.no_duplicates(),
            forall|x: usize| #[trigger] seen@.contains(x) <==> found@.contains(x),
            was.len() <= found@.len(),
            found@.take(was.len() as int) == was,
            forall|x: usize| #[trigger]
                found@.contains(x) ==> was.contains(x) || list@.contains(x),
            forall|x: usize| #[trigger] was.contains(x) ==> found@.contains(x),
            forall|j: int| 0 <= j < i ==> found@.contains(#[trigger] list@[j]),
    {
        let x: usize = list[i];
        let ghost before = found@;
        if seen.insert(x) {
            found.push(x);
            proof {
                assert(!before.contains(x));
                assert(found@.take(was.len() as int) =~= was);
                assert forall|y: usize| #[trigger] found@.contains(y) <==> before.contains(y) || y
                    == x by {
                    if before.contains(y) {
                        let k = choose|k: int| 0 <= k < before.len() && before[k] == y;
                        assert(found@[k] == y);
                    }
                    if y == x {
                        assert(found@[before.len() as int] == x);
                    }
                    if found@.contains(y) && y != x {
                        let k = choose|k: int| 0 <= k < found@.len() && found@[k] == y;
                        assert(before[k] == y);
                    }
                }
            }
        }
    }
}

/// The nodes of a set of ids, in ascending order of their ids.
pub open spec fn nodes_of(nodes: Map<NodeId, NodeV>, ids: Set<NodeId>) -> Seq<NodeV> {
    rank::ids_in_order(ids).map_values(|id: NodeId| nodes[id])
}

/// Whether a list holds exactly the edges between nodes near a place, each once.
pub open spec fn lists_edges(out: Seq<EdgeV>, edges: Seq<EdgeV>, near: Set<NodeId>) -> bool {
    &&& forall|i: int, j: int|
        0 <= i < j < out.len() ==> !same_key(#[trigger] out[i], #[trigger] out[j])
    &&& forall|i: int|
        0 <= i < out.len() ==> edges.contains(#[trigger] out[i]) && near.contains(out[i].from)
            && near.contains(out[i].to)
    &&& forall|i: int|
        0 <= i < edges.len() && near.contains((#[trigger] edges[i]).from) && near.contains(
            edges[i].to,
        ) ==> out.contains(edges[i])
}

// ---------------------------------------------------------------------------
// The graph
// ---------------------------------------------------------------------------

/// The memory graph.
pub struct MemGraph {
    g: StableGraph<u128, (), Directed, u32>,
    ix: HashMap<NodeId, usize>,
    nodes: HashMap<NodeId, Node>,
    order: Vec<NodeId>,
    edges: Vec<Edge>,
    /// The positions in `edges` of the edges at a node.
    adj: HashMap<NodeId, Vec<usize>>,
    /// Superseded node to its superseder.
    superseded_by: HashMap<NodeId, NodeId>,
}

impl View for MemGraph {
    type V = GraphV;

    closed spec fn view(&self) -> GraphV {
        GraphV {
            nodes: self.nodes@.map_values(|n: Node| n@),
            order: self.order@,
            edges: edge_views(self.edges@),
        }
    }
}

impl MemGraph {
    spec fn index_ok(self) -> bool {
        let net = netgraph::graph_nodes(self.g);
        &&& forall|id: NodeId| #[trigger]
            self.ix@.contains_key(id) <==> self.nodes@.contains_key(id)
        &&& forall|id: NodeId| #[trigger]
            self.ix@.contains_key(id) ==> net.contains_key(self.ix@[id]) && net[self.ix@[id]] == id
        &&& forall|k: usize| #[trigger]
            net.contains_key(k) ==> self.ix@.contains_key(net[k]) && self.ix@[net[k]] == k
        &&& net.dom().finite()
        &&& net.len() == self.order@.len()
    }

    spec fn order_ok(self) -> bool {
        &&& self.order@.no_duplicates()
        &&& forall|id: NodeId| #[trigger]
            self.nodes@.contains_key(id) <==> self.order@.contains(id)
        &&& forall|id: NodeId| #[trigger]
            self.nodes@.contains_key(id) ==> self.nodes@[id].id == id
    }

    spec fn edges_ok(self) -> bool {
        let edges = edge_views(self.edges@);
        &&& forall|i: int|
            0 <= i < edges.len() ==> self.nodes@.contains_key((#[trigger] edges[i]).from)
                && self.nodes@.contains_key(edges[i].to)
        &&& forall|i: int, j: int|
            0 <= i < j < edges.len() ==> !same_key(#[trigger] edges[i], #[trigger] edges[j])
    }

    spec fn net_ok(self) -> bool {
        let edges = edge_views(self.edges@);
        let net = netgraph::graph_edges(self.g);
        &&& net.len() == edges.len()
        &&& forall|a: NodeId, b: NodeId|
            self.ix@.contains_key(a) && self.ix@.contains_key(b) ==> ((#[trigger] net.count(
                (self.ix@[a], self.ix@[b]),
            ) > 0) <==> exists|i: int|
                0 <= i < edges.len() && (#[trigger] edges[i]).from == a && edges[i].to == b)
        &&& forall|p: usize, q: usize| #[trigger]
            net.count((p, q)) > 0 ==> netgraph::graph_nodes(self.g).contains_key(p)
                && netgraph::graph_nodes(self.g).contains_key(q)
    }

    spec fn adj_ok(self) -> bool {
        let edges = edge_views(self.edges@);
        forall|id: NodeId| #[trigger] noted(self.adj@, id) == incident(edges, id)
    }

    /// The indices agree with the nodes and the edges.
    pub closed spec fn wf(self) -> bool {
        &&& self.index_ok()
        &&& self.order_ok()
        &&& self.edges_ok()
        &&& self.net_ok()
        &&& self.adj_ok()
        &&& self.superseded_by@ == superseders(edge_views(self.edges@))
    }

    /// An empty graph.
    pub fn new() -> (r: MemGraph)
        ensures
            r.wf(),
            r@.nodes == Map::<NodeId, NodeV>::empty(),
            r@.order == Seq::<NodeId>::empty(),
            r@.edges == Seq::<EdgeV>::empty(),
    {
        let r = MemGraph {
            g: netgraph::graph_new(),
            ix: HashMap::new(),
            nodes: HashMap::new(),
            order: Vec::new(),
            edges: Vec::new(),
            adj: HashMap::new(),
            superseded_by: HashMap::new(),
        };
        assert(r@.nodes =~= Map::<NodeId, NodeV>::empty());
        assert(r@.edges =~= Seq::<EdgeV>::empty());
        assert(netgraph::graph_nodes(r.g).len() == 0);
        r
    }

    /// The number of nodes.
    pub fn node_count(&self) -> (r: usize)
        requires
            self.wf(),
        ensures
            r == self@.order.len(),
    {
        self.order.len()
    }

    /// The number of edges.
    pub fn edge_count(&self) -> (r: usize)
        ensures
            r == self@.edges.len(),
    {
        self.edges.len()
    }

    /// The ids of the nodes, in the order in which they came.
    pub fn ids(&self) -> (r: &Vec<NodeId>)
        ensures
            r@ == self@.order,
    {
        &self.order
    }

    /// The edges, in the order in which they came.
    pub fn edges(&self) -> (r: &Vec<Edge>)
        ensures
            edge_views(r@) == self@.edges,
    {
        &self.edges
    }

    /// The node with an id.
    pub fn get(&self, id: NodeId) -> (r: Option<&Node>)
        ensures
            match r {
                Some(n) => self@.nodes.contains_key(id) && n@ == self@.nodes[id],
                None => !self@.nodes.contains_key(id),
            },
    {
        self.nodes.get(&id)
    }

    /// The ids in order are the ids of the nodes, each once; a node is found under its own id;
    /// the edges join nodes that are there, and no two of them have the same ends and kind.
    pub proof fn shape(&self)
        requires
            self.wf(),
        ensures
            self@.order.no_duplicates(),
            forall|id: NodeId| #[trigger]
                self@.nodes.contains_key(id) <==> self@.order.contains(id),
            forall|id: NodeId| #[trigger]
                self@.nodes.contains_key(id) ==> self@.nodes[id].id == id,
            forall|i: int|
                0 <= i < self@.edges.len() ==> self@.nodes.contains_key(
                    (#[trigger] self@.edges[i]).from,
                ) && self@.nodes.contains_key(self@.edges[i].to),
            forall|i: int, j: int|
                0 <= i < j < self@.edges.len() ==> !same_key(
                    #[trigger] self@.edges[i],
                    #[trigger] self@.edges[j],
                ),
    {
    }

    /// Inserts a node, or merges it with the copy that is there.
    pub fn upsert_node(&mut self, node: Node)
        requires
            old(self).wf(),
            old(self)@.nodes.contains_key(node.id) || old(self)@.order.len() < u32::MAX,
        ensures
            final(self).wf(),
            final(self)@ == with_node(old(self)@, node@),
    {
        let id = node.id;
        let ghost before = self@;
        let ghost new = node@;
        match self.nodes.get(&id) {
            Some(existing) => {
                let ghost was = existing@;
                assert(was == before.nodes[id]);
                let mut node = node;
                if existing.first_seen_ms < node.first_seen_ms {
                    node.first_seen_ms = existing.first_seen_ms;
                }
                if existing.last_updated_ms > node.last_updated_ms {
                    node.last_updated_ms = existing.last_updated_ms;
                }
                if node.body.as_str().is_empty() {
                    node.body = existing.body.clone();
                }
                if node.summary.as_str().is_empty() {
                    node.summary = existing.summary.clone();
                }
                let keep = match (&existing.provenance, &node.provenance) {
                    (Some(o), Some(n)) => o.source_priority >= n.source_priority,
                    (Some(_), None) => true,
                    (None, _) => false,
                };
                if keep {
                    node.provenance = crate::model::copy_provenance(&existing.provenance);
                }
                node.attrs.fill_from(&existing.attrs);
                assert(node@ =~= merged(was, new));
                self.nodes.insert(id, node);
                assert(self@.nodes =~= before.nodes.insert(id, merged(was, new)));
                assert(self@ =~= with_node(before, new));
            },
            None => {
                let ghost net = netgraph::graph_nodes(self.g);
                let k: usize = netgraph::graph_add_node(&mut self.g, id);
                self.ix.insert(id, k);
                self.order.push(id);
                self.nodes.insert(id, node);
                proof {
                    assert(self@.nodes =~= before.nodes.insert(id, new));
                    assert(self@ =~= with_node(before, new));
                    let o = old(self).order@;
                    assert(!o.contains(id));
                    assert(self.order@.no_duplicates());
                    assert forall|x: NodeId| #[trigger]
                        self.nodes@.contains_key(x) <==> self.order@.contains(x) by {
                        if o.contains(x) {
                            let i = choose|i: int| 0 <= i < o.len() && o[i] == x;
                            assert(self.order@[i] == x);
                        }
                        assert(self.order@[o.len() as int] == id);
                        if self.order@.contains(x) && x != id {
                            let i = choose|i: int|
                                0 <= i < self.order@.len() && self.order@[i] == x;
                            assert(o[i] == x);
                        }
                    }
                    assert(self.index_ok());
                    let nete = netgraph::graph_edges(self.g);
                    let edges = edge_views(self.edges@);
                    assert forall|a: NodeId, b: NodeId|
                        self.ix@.contains_key(a) && self.ix@.contains_key(b) implies ((
                    #[trigger] nete.count((self.ix@[a], self.ix@[b])) > 0) <==> exists|i: int|
                        0 <= i < edges.len() && (#[trigger] edges[i]).from == a && edges[i].to
                            == b) by {
                        if a == id || b == id {
                            assert(!net.contains_key(k));
                            assert(forall|i: int|
                                0 <= i < edges.len() ==> old(self).nodes@.contains_key(
                                    (#[trigger] edges[i]).from,
                                ));
                        } else {
                            assert(nete.count((old(self).ix@[a], old(self).ix@[b])) == nete.count(
                                (self.ix@[a], self.ix@[b]),
                            ));
                        }
                    }
                    assert(self.net_ok());
                }
            },
        }
    }

    fn has_edge(&self, edge: &Edge) -> (r: bool)
        requires
            self.wf(),
        ensures
            r == has_key(self@.edges, edge@),
    {
        let ghost edges = self@.edges;
        let total: usize = self.edges.len();
        proof {
            assert(edges.len() == total);
            lemma_incident(edges, edge.from);
            assert(noted(self.adj@, edge.from) == incident(edges, edge.from));
        }
        match self.adj.get(&edge.from) {
            Some(at) => {
                let n: usize = at.len();
                for k in 0..n
                    invariant
                        n == at@.len(),
                        at@ == incident(edges, edge.from),
                        edges == edge_views(self.edges@),
                        forall|j: int| 0 <= j < n ==> (#[trigger] at@[j]) < edges.len(),
                        forall|j: int|
                            0 <= j < k ==> !same_key(edges[(#[trigger] at@[j]) as int], edge@),
                {
                    let e = &self.edges[at[k]];
                    assert(edges[at@[k as int] as int] == e@);
                    if e.from == edge.from && e.to == edge.to && e.kind == edge.kind {
                        return true;
                    }
                }
                proof {
                    if has_key(edges, edge@) {
                        let i = choose|i: int| 0 <= i < edges.len() && same_key(edges[i], edge@);
                        assert(at@.contains(i as usize));
                        let j = choose|j: int| 0 <= j < at@.len() && at@[j] == i as usize;
                        assert(same_key(edges[at@[j] as int], edge@));
                    }
                }
                false
            },
            None => {
                proof {
                    if has_key(edges, edge@) {
                        let i = choose|i: int| 0 <= i < edges.len() && same_key(edges[i], edge@);
                        assert(incident(edges, edge.from).contains(i as usize));
                    }
                }
                false
            },
        }
    }

    /// Inserts an edge if both its ends are there and no edge has the same ends and kind.
    pub fn upsert_edge(&mut self, edge: Edge)
        requires
            old(self).wf(),
            old(self)@.edges.len() < u32::MAX,
        ensures
            final(self).wf(),
            final(self)@ == with_edge(old(self)@, edge@),
    {
        let ghost before = self@;
        let ghost was = self.edges@;
        let ghost old_edges = edge_views(was);
        let ghost e = edge@;
        let (a, b): (usize, usize) = match (self.ix.get(&edge.from), self.ix.get(&edge.to)) {
            (Some(a), Some(b)) => (*a, *b),
            _ => {
                assert(!before.nodes.contains_key(e.from) || !before.nodes.contains_key(e.to));
                return;
            },
        };
        if self.has_edge(&edge) {
            return;
        }
        netgraph::graph_add_edge(&mut self.g, a, b);
        let at: usize = self.edges.len();
        note(&mut self.adj, edge.from, at);
        if edge.to != edge.from {
            note(&mut self.adj, edge.to, at);
        }
        if edge.kind == EdgeKind::Supersedes {
            self.superseded_by.insert(edge.to, edge.from);
        }
        self.edges.push(edge);
        proof {
            let edges = edge_views(self.edges@);
            assert(edges =~= old_edges.push(e));
            assert(edges.drop_last() =~= old_edges);
            assert(self@ =~= with_edge(before, e));
            assert forall|i: int, j: int| 0 <= i < j < edges.len() implies !same_key(
                #[trigger] edges[i],
                #[trigger] edges[j],
            ) by {
                if j < old_edges.len() {
                    assert(!same_key(old_edges[i], old_edges[j]));
                } else {
                    assert(!same_key(old_edges[i], e));
                }
            }
            assert forall|i: int| 0 <= i < edges.len() implies self.nodes@.contains_key(
                (#[trigger] edges[i]).from,
            ) && self.nodes@.contains_key(edges[i].to) by {
                if i < old_edges.len() {
                    assert(edges[i] == old_edges[i]);
                }
            }
            assert(self.edges_ok());
            assert forall|id: NodeId| #[trigger] noted(self.adj@, id) == incident(edges, id) by {
                assert(noted(old(self).adj@, id) == incident(old_edges, id));
            }
            let net = netgraph::graph_edges(self.g);
            let old_net = netgraph::graph_edges(old(self).g);
            assert forall|x: NodeId, y: NodeId|
                self.ix@.contains_key(x) && self.ix@.contains_key(y) implies ((#[trigger] net.count(
                (self.ix@[x], self.ix@[y]),
            ) > 0) <==> exists|i: int|
                0 <= i < edges.len() && (#[trigger] edges[i]).from == x && edges[i].to == y) by {
                let p = (self.ix@[x], self.ix@[y]);
                assert(net.count(p) == old_net.count(p) + (if p == (a, b) {
                    1nat
                } else {
                    0nat
                }));
                assert(p == (a, b) <==> x == e.from && y == e.to);
                if exists|i: int|
                    0 <= i < old_edges.len() && (#[trigger] old_edges[i]).from == x
                        && old_edges[i].to == y {
                    let i = choose|i: int|
                        0 <= i < old_edges.len() && (#[trigger] old_edges[i]).from == x
                            && old_edges[i].to == y;
                    assert(edges[i] == old_edges[i]);
                }
                assert(edges[old_edges.len() as int] == e);
                if exists|i: int|
                    0 <= i < edges.len() && (#[trigger] edges[i]).from == x && edges[i].to == y {
                    let i = choose|i: int|
                        0 <= i < edges.len() && (#[trigger] edges[i]).from == x && edges[i].to == y;
                    if i < old_edges.len() {
                        assert(old_edges[i].from == x && old_edges[i].to == y);
                    }
                }
            }
            assert forall|p: usize, q: usize| #[trigger]
                net.count((p, q)) > 0 implies netgraph::graph_nodes(self.g).contains_key(p)
                && netgraph::graph_nodes(self.g).contains_key(q) by {
                if (p, q) != (a, b) {
                    assert(old_net.count((p, q)) > 0);
                }
            }
            assert(self.net_ok());
        }
    }

    /// The number of edges at a node.
    pub fn degree(&self, id: NodeId) -> (r: usize)
        requires
            self.wf(),
        ensures
            r == incident(self@.edges, id).len(),
    {
        assert(noted(self.adj@, id) == incident(self@.edges, id));
        match self.adj.get(&id) {
            Some(at) => at.len(),
            None => 0,
        }
    }

    /// The newest node above `id` in the chain of supersessions; nothing where `id` was never
    /// superseded or the chain runs in a circle.
    pub fn superseder_of(&self, id: NodeId) -> (r: Option<NodeId>)
        requires
            self.wf(),
        ensures
            match r {
                Some(head) => chain_head(superseders(self@.edges), id, head),
                None => forall|head: NodeId| !chain_head(superseders(self@.edges), id, head),
            },
    {
        let ghost sup = superseders(self@.edges);
        let ghost ids = self.nodes@.dom();
        proof {
            lemma_superseders(self@.edges, ids);
        }
        let mut cur: NodeId = match self.superseded_by.get(&id) {
            Some(x) => *x,
            None => {
                proof {
                    assert forall|head: NodeId| !chain_head(sup, id, head) by {
                        if chain_head(sup, id, head) {
                            let m = choose|n: nat|
                                n >= 1 && #[trigger] nth_superseder(sup, id, n) == Some(head)
                                    && !sup.contains_key(head);
                            lemma_chain_prefix(sup, id, m, 0);
                        }
                    }
                }
                return None;
            },
        };
        let mut seen: HashSet<NodeId> = HashSet::new();
        seen.insert(id);
        seen.insert(cur);
        let ghost mut n: nat = 1;
        proof {
            assert(nth_superseder(sup, id, 0) == Some(id));
            assert(nth_superseder(sup, id, 1) == Some(cur));
            assert forall|x: NodeId| #[trigger] seen@.contains(x) implies exists|k: nat|
                k <= n && #[trigger] nth_superseder(sup, id, k) == Some(x) by {
                if x == id {
                    assert(nth_superseder(sup, id, 0) == Some(x));
                } else {
                    assert(nth_superseder(sup, id, 1) == Some(x));
                }
            }
            vstd::set_lib::lemma_len_subset(seen@, ids);
        }
        loop
            invariant
                sup == self.superseded_by@,
                sup == superseders(self@.edges),
                ids == self.nodes@.dom(),
                ids.finite(),
                forall|k: NodeId| #[trigger]
                    sup.contains_key(k) ==> ids.contains(k) && ids.contains(sup[k]),
                n >= 1,
                nth_superseder(sup, id, n) == Some(cur),
                forall|x: NodeId| #[trigger]
                    seen@.contains(x) ==> exists|k: nat|
                        k <= n && #[trigger] nth_superseder(sup, id, k) == Some(x),
                seen@.subset_of(ids),
                seen@.finite(),
                seen@.len() <= ids.len(),
            ensures
                chain_head(sup, id, cur),
            decreases ids.len() - seen@.len(),
        {
            match self.superseded_by.get(&cur) {
                Some(next) => {
                    let next: NodeId = *next;
                    let ghost before = seen@;
                    let ghost m = (n + 1) as nat;
                    assert(nth_superseder(sup, id, m) == Some(next));
                    let fresh = seen.insert(next);
                    if !fresh {
                        proof {
                            let k = choose|k: nat|
                                k <= n && #[trigger] nth_superseder(sup, id, k) == Some(next);
                            assert forall|head: NodeId| !chain_head(sup, id, head) by {
                                lemma_no_head_above_cycle(sup, id, k, m, head);
                            }
                        }
                        return None;
                    }
                    proof {
                        assert(seen@ =~= before.insert(next));
                        assert forall|x: NodeId| #[trigger]
                            seen@.contains(x) implies exists|k: nat|
                            k <= m && #[trigger] nth_superseder(sup, id, k) == Some(x) by {
                            if x != next {
                                assert(before.contains(x));
                            }
                        }
                        vstd::set_lib::lemma_len_subset(seen@, ids);
                        n = m;
                    }
                    cur = next;
                },
                None => {
                    break;
                },
            }
        }
        Some(cur)
    }

    /// Adds the indices next to one index, in either direction.
    fn expand(&self, found: &mut Vec<usize>, seen: &mut HashSet<usize>, at: usize)
        requires
            self.wf(),
            netgraph::graph_nodes(self.g).contains_key(at),
            old(found)@.no_duplicates(),
            forall|x: usize| #[trigger] old(seen)@.contains(x) <==> old(found)@.contains(x),
        ensures
            final(found)@.no_duplicates(),
            forall|x: usize| #[trigger] final(seen)@.contains(x) <==> final(found)@.contains(x),
            old(found)@.len() <= final(found)@.len(),
            final(found)@.take(old(found)@.len() as int) == old(found)@,
            forall|x: usize| #[trigger]
                final(found)@.contains(x) <==> old(found)@.contains(x) || self.next_to(at, x),
    {
        broadcast use vstd::seq_lib::group_to_multiset_ensures;

        let ghost was = found@;
        let ghost net = netgraph::graph_edges(self.g);
        let out = netgraph::graph_successors(&self.g, at);
        take_in(found, seen, &out);
        let ghost mid = found@;
        let inc = netgraph::graph_predecessors(&self.g, at);
        take_in(found, seen, &inc);
        assert(found@.take(was.len() as int) =~= mid.take(was.len() as int));
        assert forall|x: usize| #[trigger] found@.contains(x) <==> was.contains(x) || self.next_to(
            at,
            x,
        ) by {
            assert(out@.contains(x) <==> out@.to_multiset().count(x) > 0);
            assert(inc@.contains(x) <==> inc@.to_multiset().count(x) > 0);
            assert(mid.contains(x) <==> was.contains(x) || out@.contains(x));
        }
    }

    spec fn next_to(self, at: usize, x: usize) -> bool {
        netgraph::graph_edges(self.g).count((at, x)) > 0 || netgraph::graph_edges(self.g).count(
            (x, at),
        ) > 0
    }

    proof fn lemma_next_to(self, a: NodeId, b: NodeId)
        requires
            self.wf(),
            self.ix@.contains_key(a),
            self.ix@.contains_key(b),
        ensures
            self.next_to(self.ix@[a], self.ix@[b]) == linked(self@.edges, a, b),
    {
        let edges = self@.edges;
        let net = netgraph::graph_edges(self.g);
        let p = net.count((self.ix@[a], self.ix@[b])) > 0;
        let q = net.count((self.ix@[b], self.ix@[a])) > 0;
        assert(p <==> exists|i: int|
            0 <= i < edges.len() && (#[trigger] edges[i]).from == a && edges[i].to == b);
        assert(q <==> exists|i: int|
            0 <= i < edges.len() && (#[trigger] edges[i]).from == b && edges[i].to == a);
        if linked(edges, a, b) {
            let i = choose|i: int| 0 <= i < edges.len() && joins(#[trigger] edges[i], a, b);
            assert(edges[i].from == a && edges[i].to == b || edges[i].from == b && edges[i].to == a);
        }
        if p {
            let i = choose|i: int|
                0 <= i < edges.len() && (#[trigger] edges[i]).from == a && edges[i].to == b;
            assert(joins(edges[i], a, b));
        }
        if q {
            let i = choose|i: int|
                0 <= i < edges.len() && (#[trigger] edges[i]).from == b && edges[i].to == a;
            assert(joins(edges[i], a, b));
        }
    }

    /// Whether a list of indices stands for a set of ids.
    spec fn stands_for(self, found: Seq<usize>, near: Set<NodeId>) -> bool {
        &&& forall|x: usize| #[trigger]
            found.contains(x) ==> netgraph::graph_nodes(self.g).contains_key(x)
        &&& forall|id: NodeId| #[trigger]
            near.contains(id) <==> self.ix@.contains_key(id) && found.contains(self.ix@[id])
    }

    /// One level of the walk: `found` grows by what is next to the indices from `lo` on.
    fn expand_level(&self, found: &mut Vec<usize>, seen: &mut HashSet<usize>, lo: usize, Ghost(near): Ghost<Set<NodeId>>)
        requires
            self.wf(),
            lo <= old(found)@.len(),
            old(found)@.no_duplicates(),
            forall|x: usize| #[trigger] old(seen)@.contains(x) <==> old(found)@.contains(x),
            self.stands_for(old(found)@, near),
            forall|p: int, x: usize|
                0 <= p < lo && self.next_to(#[trigger] old(found)@[p], x) ==> #[trigger] old(
                    found,
                )@.contains(x),
        ensures
            final(found)@.no_duplicates(),
            forall|x: usize| #[trigger] final(seen)@.contains(x) <==> final(found)@.contains(x),
            old(found)@.len() <= final(found)@.len(),
            self.stands_for(
                final(found)@,
                Set::new(
                    |b: NodeId|
                        near.contains(b) || exists|a: NodeId| #[trigger]
                            near.contains(a) && linked(self@.edges, a, b),
                ),
            ),
            forall|p: int, x: usize|
                0 <= p < old(found)@.len() && self.next_to(#[trigger] final(found)@[p], x)
                    ==> #[trigger] final(found)@.contains(x),
    {
        let ghost was = found@;
        let hi: usize = found.len();
        let ghost net = netgraph::graph_nodes(self.g);
        assert(found@.take(hi as int) =~= was);
        let mut f: usize = lo;
        while f < hi
            invariant
                self.wf(),
                net == netgraph::graph_nodes(self.g),
                lo <= f <= hi == was.len(),
                found@.no_duplicates(),
                forall|x: usize| #[trigger] seen@.contains(x) <==> found@.contains(x),
                hi <= found@.len(),
                found@.take(hi as int) == was,
                forall|x: usize| #[trigger] was.contains(x) ==> net.contains_key(x),
                forall|x: usize| #[trigger] was.contains(x) ==> found@.contains(x),
                forall|x: usize| #[trigger]
                    found@.contains(x) ==> was.contains(x) || exists|q: int|
                        0 <= q < hi && self.next_to(#[trigger] was[q], x),
                forall|p: int, x: usize|
                    0 <= p < f && self.next_to(#[trigger] was[p], x) ==> #[trigger] found@.contains(x),
            decreases hi - f,
        {
            assert(found@[f as int] == found@.take(hi as int)[f as int]);
            let at: usize = found[f];
            assert(at == was[f as int]);
            assert(was.contains(at));
            let ghost before = found@;
            self.expand(found, seen, at);
            proof {
                assert(found@.take(hi as int) =~= before.take(hi as int)) by {
                    assert(found@.take(before.len() as int) == before);
                    assert(found@.take(hi as int) =~= found@.take(before.len() as int).take(
                        hi as int,
                    ));
                }
                assert forall|x: usize| #[trigger] found@.contains(x) implies was.contains(x)
                    || exists|q: int| 0 <= q < hi && self.next_to(#[trigger] was[q], x) by {
                    if !before.contains(x) {
                        assert(self.next_to(was[f as int], x));
                    }
                }
                assert forall|p: int, x: usize|
                    0 <= p < f + 1 && self.next_to(#[trigger] was[p], x) implies #[trigger] found@.contains(
                    x,
                ) by {
                    if p < f {
                        assert(before.contains(x));
                    }
                }
            }
            f += 1;
        }
        proof {
            let edges = self@.edges;
            let wide = Set::new(
                |b: NodeId|
                    near.contains(b) || exists|a: NodeId| #[trigger]
                        near.contains(a) && linked(edges, a, b),
            );
            assert forall|x: usize| #[trigger] found@.contains(x) implies net.contains_key(x) by {
                if !was.contains(x) {
                    let q = choose|q: int| 0 <= q < hi && self.next_to(#[trigger] was[q], x);
                    assert(netgraph::graph_edges(self.g).count((was[q], x)) > 0
                        || netgraph::graph_edges(self.g).count((x, was[q])) > 0);
                }
            }
            assert forall|id: NodeId| #[trigger]
                wide.contains(id) <==> self.ix@.contains_key(id) && found@.contains(
                    self.ix@[id],
                ) by {
                if wide.contains(id) {
                    if near.contains(id) {
                        assert(was.contains(self.ix@[id]));
                    } else {
                        let a = choose|a: NodeId| #[trigger]
                            near.contains(a) && linked(edges, a, id);
                        let i = choose|i: int|
                            0 <= i < edges.len() && joins(#[trigger] edges[i], a, id);
                        assert(self.nodes@.contains_key(edges[i].from)
                            && self.nodes@.contains_key(edges[i].to));
                        assert(self.ix@.contains_key(id));
                        self.lemma_next_to(a, id);
                        let q = choose|q: int| 0 <= q < was.len() && was[q] == self.ix@[a];
                        assert(self.next_to(was[q], self.ix@[id]));
                    }
                }
                if self.ix@.contains_key(id) && found@.contains(self.ix@[id]) {
                    let x = self.ix@[id];
                    if !was.contains(x) {
                        let q = choose|q: int| 0 <= q < hi && self.next_to(#[trigger] was[q], x);
                        assert(was.contains(was[q]));
                        let a = net[was[q]];
                        assert(net.contains_key(was[q]));
                        assert(self.ix@.contains_key(a) && self.ix@[a] == was[q]);
                        assert(near.contains(a));
                        self.lemma_next_to(a, id);
                        assert(linked(edges, a, id));
                    }
                }
            }
            assert forall|p: int, x: usize|
                0 <= p < was.len() && self.next_to(#[trigger] found@[p], x) implies #[trigger] found@.contains(
                x,
            ) by {
                assert(found@[p] == found@.take(hi as int)[p]);
                assert(self.next_to(was[p], x));
            }
        }
    }

    /// The positions of the edges at `id` whose two ends are both in `near`.
    fn edges_between(&self, id: NodeId, near: &HashSet<NodeId>) -> (r: Vec<usize>)
        requires
            self.wf(),
        ensures
            forall|i: usize| #[trigger]
                r@.contains(i) <==> i < self@.edges.len() && (self@.edges[i as int].from == id
                    || self@.edges[i as int].to == id) && near@.contains(self@.edges[i as int].from)
                    && near@.contains(self@.edges[i as int].to),
    {
        let ghost edges = self@.edges;
        let total: usize = self.edges.len();
        proof {
            assert(edges.len() == total);
            lemma_incident(edges, id);
            assert(noted(self.adj@, id) == incident(edges, id));
        }
        let mut out: Vec<usize> = Vec::new();
        match self.adj.get(&id) {
            Some(at) => {
                let n: usize = at.len();
                for k in 0..n
                    invariant
                        n == at@.len(),
                        edges == edge_views(self.edges@),
                        forall|j: int| 0 <= j < n ==> (#[trigger] at@[j]) < edges.len(),
                        forall|x: usize| #[trigger]
                            out@.contains(x) ==> at@.contains(x) && near@.contains(
                                edges[x as int].from,
                            ) && near@.contains(edges[x as int].to),
                        forall|j: int|
                            0 <= j < k && near@.contains(edges[(#[trigger] at@[j]) as int].from)
                                && near@.contains(edges[at@[j] as int].to) ==> out@.contains(at@[j]),
                {
                    let x: usize = at[k];
                    let e = &self.edges[x];
                    assert(edges[x as int] == e@);
                    if near.contains(&e.from) && near.contains(&e.to) {
                        let ghost before = out@;
                        out.push(x);
                        proof {
                            assert(out@[before.len() as int] == x);
                            assert forall|y: usize| #[trigger] out@.contains(y) <==> before.contains(
                                y,
                            ) || y == x by {
                                if before.contains(y) {
                                    let j = choose|j: int| 0 <= j < before.len() && before[j] == y;
                                    assert(out@[j] == y);
                                }
                                if out@.contains(y) && y != x {
                                    let j = choose|j: int| 0 <= j < out@.len() && out@[j] == y;
                                    assert(before[j] == y);
                                }
                            }
                            assert(at@[k as int] == x);
                        }
                    }
                }
                proof {
                    assert forall|i: usize| #[trigger] out@.contains(i) <==> i < edges.len() && (
                    edges[i as int].from == id || edges[i as int].to == id) && near@.contains(
                        edges[i as int].from,
                    ) && near@.contains(edges[i as int].to) by {
                        if out@.contains(i) {
                            let j = choose|j: int| 0 <= j < at@.len() && at@[j] == i;
                            assert(incident(edges, id)[j] == i);
                        }
                        if i < edges.len() && (edges[i as int].from == id || edges[i as int].to == id) {
                            assert(edges[i as int].from == id || edges[i as int].to == id);
                            assert(at@.contains(i));
                            let j = choose|j: int| 0 <= j < at@.len() && at@[j] == i;
                        }
                    }
                }
            },
            None => {
                proof {
                    assert forall|i: usize| !(i < edges.len() && (edges[i as int].from == id
                        || edges[i as int].to == id)) by {
                        if i < edges.len() && (edges[i as int].from == id || edges[i as int].to == id) {
                            assert(edges[i as int].from == id || edges[i as int].to == id);
                            assert(incident(edges, id).contains(i));
                        }
                    }
                }
            },
        }
        out
    }

    /// The nodes within `depth` steps of `start`, in either direction, by ascending id, and the
    /// edges between them in some order. Nothing where `start` is not there.
    pub fn neighbors(&self, start: NodeId, depth: usize) -> (r: (Vec<Node>, Vec<Edge>))
        requires
            self.wf(),
        ensures
            !self@.nodes.contains_key(start) ==> r.0@.len() == 0 && r.1@.len() == 0,
            self@.nodes.contains_key(start) ==> node_views(r.0@) == nodes_of(
                self@.nodes,
                within(self@.edges, start, depth as nat),
            ),
            self@.nodes.contains_key(start) ==> rank::lists_ids(
                rank::ids_in_order(within(self@.edges, start, depth as nat)),
                within(self@.edges, start, depth as nat),
            ),
            self@.nodes.contains_key(start) ==> lists_edges(
                edge_views(r.1@),
                self@.edges,
                within(self@.edges, start, depth as nat),
            ),
    {
        let mut nodes_out: Vec<Node> = Vec::new();
        let mut edges_out: Vec<Edge> = Vec::new();
        let first: usize = match self.ix.get(&start) {
            Some(k) => *k,
            None => {
                return (nodes_out, edges_out);
            },
        };
        let ghost edges = self@.edges;
        let ghost net = netgraph::graph_nodes(self.g);
        let mut found: Vec<usize> = Vec::new();
        let mut seen: HashSet<usize> = HashSet::new();
        found.push(first);
        seen.insert(first);
        let mut lo: usize = 0;
        proof {
            assert(found@ =~= seq![first]);
            assert(found@[0] == first);
            assert(net.contains_key(first) && net[first] == start);
        }
        let mut level: usize = 0;
        while level < depth
            invariant
                self.wf(),
                edges == self@.edges,
                level <= depth,
                lo <= found@.len(),
                found@.no_duplicates(),
                forall|x: usize| #[trigger] seen@.contains(x) <==> found@.contains(x),
                self.stands_for(found@, within(edges, start, level as nat)),
                forall|p: int, x: usize|
                    0 <= p < lo && self.next_to(#[trigger] found@[p], x) ==> #[trigger] found@.contains(x),
            decreases depth - level,
        {
            let hi: usize = found.len();
            self.expand_level(
                &mut found,
                &mut seen,
                lo,
                Ghost(within(edges, start, level as nat)),
            );
            lo = hi;
            level += 1;
            proof {
                let near = within(edges, start, (level - 1) as nat);
                assert(within(edges, start, level as nat) =~= Set::new(
                    |b: NodeId|
                        near.contains(b) || exists|a: NodeId| #[trigger]
                            near.contains(a) && linked(edges, a, b),
                ));
            }
        }
        let ghost near = within(edges, start, depth as nat);
        let mut near_ids: HashSet<NodeId> = HashSet::new();
        let mut ids: Vec<NodeId> = Vec::new();
        let m: usize = found.len();
        for k in 0..m
            invariant
                self.wf(),
                net == netgraph::graph_nodes(self.g),
                m == found@.len(),
                self.stands_for(found@, near),
                ids@.len() == k,
                forall|j: int| 0 <= j < k ==> #[trigger] ids@[j] == net[found@[j]],
                forall|id: NodeId| #[trigger] near_ids@.contains(id) <==> ids@.contains(id),
        {
            let at: usize = found[k];
            assert(found@.contains(at));
            let id: NodeId = net_id(&self.g, at);
            let ghost before = ids@;
            ids.push(id);
            near_ids.insert(id);
            assert forall|x: NodeId| #[trigger] near_ids@.contains(x) <==> ids@.contains(x) by {
                if before.contains(x) {
                    let j = choose|j: int| 0 <= j < before.len() && before[j] == x;
                    assert(ids@[j] == x);
                }
                assert(ids@[k as int] == id);
                if ids@.contains(x) && x != id {
                    let j = choose|j: int| 0 <= j < ids@.len() && ids@[j] == x;
                    assert(before[j] == x);
                }
            }
        }
        proof {
            assert forall|id: NodeId| #[trigger] ids@.contains(id) <==> near.contains(id) by {
                if ids@.contains(id) {
                    let j = choose|j: int| 0 <= j < ids@.len() && ids@[j] == id;
                    assert(found@.contains(found@[j]));
                    assert(net.contains_key(found@[j]));
                }
                if near.contains(id) {
                    let j = choose|j: int| 0 <= j < found@.len() && found@[j] == self.ix@[id];
                    assert(ids@[j] == id);
                }
            }
            assert(near_ids@ =~= near);
            assert(ids@.to_set() =~= near);
        }
        let sorted = rank::sort_ids(&ids);
        proof {
            rank::lemma_ids_in_order(sorted@, near);
        }
        let n: usize = sorted.len();
        for k in 0..n
            invariant
                self.wf(),
                n == sorted@.len(),
                rank::lists_ids(sorted@, near),
                self.stands_for(found@, near),
                nodes_out@.len() == k,
                forall|j: int|
                    0 <= j < k ==> (#[trigger] nodes_out@[j]).id == sorted@[j] && nodes_out@[j]@
                        == self@.nodes[sorted@[j]],
        {
            let id: NodeId = sorted[k];
            assert(sorted@.contains(id));
            assert(near.contains(id));
            assert(self.ix@.contains_key(id));
            match self.nodes.get(&id) {
                Some(node) => {
                    let copy = node.clone();
                    assert(copy@ == node@);
                    assert(copy@.id == id);
                    nodes_out.push(copy);
                },
                None => {
                    assert(false);
                },
            }
        }
        assert(node_views(nodes_out@) =~= nodes_of(self@.nodes, near));
        let mut picked: Vec<usize> = Vec::new();
        let mut picked_set: HashSet<usize> = HashSet::new();
        for k in 0..n
            invariant
                self.wf(),
                edges == self@.edges,
                n == nodes_out@.len(),
                near_ids@ == near,
                picked@.no_duplicates(),
                forall|x: usize| #[trigger] picked_set@.contains(x) <==> picked@.contains(x),
                forall|i: usize| #[trigger]
                    picked@.contains(i) ==> i < edges.len() && near.contains(edges[i as int].from)
                        && near.contains(edges[i as int].to),
                forall|j: int, i: usize|
                    #![trigger nodes_out@[j], picked@.contains(i)]
                    0 <= j < k && i < edges.len() && near.contains(edges[i as int].from)
                        && near.contains(edges[i as int].to) && edges[i as int].from
                        == nodes_out@[j].id ==> picked@.contains(i),
        {
            let ghost before = picked@;
            let list = self.edges_between(nodes_out[k].id, &near_ids);
            take_in(&mut picked, &mut picked_set, &list);
            assert forall|j: int, i: usize|
                #![trigger nodes_out@[j], picked@.contains(i)]
                0 <= j < k + 1 && i < edges.len() && near.contains(edges[i as int].from)
                    && near.contains(edges[i as int].to) && edges[i as int].from
                    == nodes_out@[j].id implies picked@.contains(i) by {
                if j < k {
                    assert(before.contains(i));
                } else {
                    assert(list@.contains(i));
                }
            }
        }
        let total: usize = self.edges.len();
        let p: usize = picked.len();
        for k in 0..p
            invariant
                edges == edge_views(self.edges@),
                p == picked@.len(),
                forall|i: usize| #[trigger] picked@.contains(i) ==> i < edges.len(),
                edges_out@.len() == k,
                forall|j: int| 0 <= j < k ==> (#[trigger] edges_out@[j])@ == edges[picked@[j] as int],
        {
            assert(picked@.contains(picked@[k as int]));
            let copy = self.edges[picked[k]].clone();
            assert(copy@ == edges[picked@[k as int] as int]);
            edges_out.push(copy);
        }
        proof {
            let out = edge_views(edges_out@);
            assert forall|i: int, j: int| 0 <= i < j < out.len() implies !same_key(
                #[trigger] out[i],
                #[trigger] out[j],
            ) by {
                assert(out[i] == edges_out@[i]@ && out[j] == edges_out@[j]@);
                assert(picked@.contains(picked@[i]) && picked@.contains(picked@[j]));
                let (x, y) = (picked@[i] as int, picked@[j] as int);
                assert(x != y);
                if x < y {
                    assert(!same_key(edges[x], edges[y]));
                } else {
                    assert(!same_key(edges[y], edges[x]));
                }
            }
            assert forall|i: int| 0 <= i < out.len() implies edges.contains(#[trigger] out[i])
                && near.contains(out[i].from) && near.contains(out[i].to) by {
                assert(out[i] == edges_out@[i]@);
                assert(picked@.contains(picked@[i]));
                assert(edges[picked@[i] as int] == out[i]);
            }
            assert forall|i: int|
                0 <= i < edges.len() && near.contains((#[trigger] edges[i]).from) && near.contains(
                    edges[i].to,
                ) implies out.contains(edges[i]) by {
                let id = edges[i].from;
                assert(sorted@.contains(id));
                let j = choose|j: int| 0 <= j < sorted@.len() && sorted@[j] == id;
                assert(nodes_out@[j].id == id);
                assert(edges.len() == total);
                assert((i as usize) as int == i);
                assert(picked@.contains(i as usize));
                let k = choose|k: int| 0 <= k < picked@.len() && picked@[k] == i as usize;
                assert(out[k] == edges_out@[k]@);
                assert(out[k] == edges[i]);
            }
            assert(lists_edges(out, edges, near));
        }
        (nodes_out, edges_out)
    }
}

/// The id that an index carries.
fn net_id(g: &StableGraph<u128, (), Directed, u32>, at: usize) -> (r: NodeId)
    requires
        netgraph::graph_nodes(*g).contains_key(at),
    ensures
        r == netgraph::graph_nodes(*g)[at],
{
    match netgraph::graph_node_weight(g, at) {
        Some(id) => id,
        None => 0,
    }
}

// ---------------------------------------------------------------------------
// Laws
// ---------------------------------------------------------------------------

/// Ingesting a node again changes nothing.
pub proof fn upsert_node_idempotent(g: GraphV, n: NodeV)
    ensures
        with_node(with_node(g, n), n) == with_node(g, n),
{
    let once = with_node(g, n);
    let m = once.nodes[n.id];
    assert(merged(m, n) =~= m) by {
        if g.nodes.contains_key(n.id) {
            let o = g.nodes[n.id];
            assert(o.attrs.union_prefer_right(n.attrs).union_prefer_right(n.attrs)
                =~= o.attrs.union_prefer_right(n.attrs));
        } else {
            assert(n.attrs.union_prefer_right(n.attrs) =~= n.attrs);
        }
    }
    assert(once.nodes.insert(n.id, m) =~= once.nodes);
}

/// Offering an edge again changes nothing.
pub proof fn upsert_edge_idempotent(g: GraphV, e: EdgeV)
    ensures
        with_edge(with_edge(g, e), e) == with_edge(g, e),
{
    if admits_edge(g, e) {
        let edges = g.edges.push(e);
        assert(same_key(edges[edges.len() - 1], e));
        assert(has_key(edges, e));
    }
}

/// Merging never moves the first sight forward nor the last update back, and never lowers the
/// priority of a provenance.
pub proof fn merging_keeps_time_and_priority(older: NodeV, newer: NodeV)
    ensures
        merged(older, newer).first_seen_ms <= older.first_seen_ms,
        merged(older, newer).last_updated_ms >= older.last_updated_ms,
        older.provenance matches Some(o) ==> merged(older, newer).provenance matches Some(m)
            && m.source_priority >= o.source_priority,
{
}

/// What lies within some depth lies within every greater depth.
pub proof fn within_is_monotone(edges: Seq<EdgeV>, start: NodeId, near: nat, far: nat)
    requires
        near <= far,
    ensures
        within(edges, start, near).subset_of(within(edges, start, far)),
    decreases far,
{
    if near < far {
        within_is_monotone(edges, start, near, (far - 1) as nat);
    }
}

/// A neighbourhood never leaves the nodes that the edges join.
pub proof fn within_stays_inside(edges: Seq<EdgeV>, start: NodeId, depth: nat, ids: Set<NodeId>)
    requires
        ids.contains(start),
        forall|i: int|
            0 <= i < edges.len() ==> ids.contains((#[trigger] edges[i]).from) && ids.contains(
                edges[i].to,
            ),
    ensures
        within(edges, start, depth).subset_of(ids),
    decreases depth,
{
    if depth > 0 {
        within_stays_inside(edges, start, (depth - 1) as nat, ids);
    }
}

/// The ends of edges.
spec fn ends(edges: Seq<EdgeV>) -> Set<NodeId>
    decreases edges.len(),
{
    if edges.len() == 0 {
        Set::empty()
    } else {
        ends(edges.drop_last()).insert(edges.last().from).insert(edges.last().to)
    }
}

proof fn lemma_ends(edges: Seq<EdgeV>)
    ensures
        ends(edges).finite(),
        forall|i: int|
            0 <= i < edges.len() ==> ends(edges).contains((#[trigger] edges[i]).from) && ends(
                edges,
            ).contains(edges[i].to),
    decreases edges.len(),
{
    if edges.len() != 0 {
        let init = edges.drop_last();
        lemma_ends(init);
        assert forall|i: int| 0 <= i < edges.len() implies ends(edges).contains(
            (#[trigger] edges[i]).from,
        ) && ends(edges).contains(edges[i].to) by {
            if i < init.len() {
                assert(init[i] == edges[i]);
            }
        }
    }
}

/// A neighbourhood can be listed: its ids in ascending order are those of its nodes, each once.
pub proof fn neighbourhoods_are_listed(edges: Seq<EdgeV>, start: NodeId, depth: nat)
    ensures
        rank::lists_ids(
            rank::ids_in_order(within(edges, start, depth)),
            within(edges, start, depth),
        ),
{
    let all = ends(edges).insert(start);
    lemma_ends(edges);
    within_stays_inside(edges, start, depth, all);
    vstd::set_lib::lemma_len_subset(within(edges, start, depth), all);
    rank::lemma_ids_listed(within(edges, start, depth));
}

/// The degree of a node is the number of the edges at it, in either direction.
pub proof fn degrees_count_edges(edges: Seq<EdgeV>, id: NodeId)
    ensures
        incident(edges, id).len() == edges.filter(|e: EdgeV| e.from == id || e.to == id).len(),
    decreases edges.len(),
{
    reveal(Seq::filter);
    if edges.len() != 0 {
        degrees_count_edges(edges.drop_last(), id);
    }
}

/// One step from a node leads along an edge, in either direction, or stays.
pub proof fn one_step_is_one_edge(edges: Seq<EdgeV>, start: NodeId, other: NodeId)
    ensures
        within(edges, start, 1).contains(other) <==> other == start || exists|i: int|
            0 <= i < edges.len() && joins(#[trigger] edges[i], start, other),
        within(edges, start, 0).contains(other) <==> other == start,
{
    reveal_with_fuel(within, 2);
    let here = within(edges, start, 0);
    assert(here.contains(start));
    if linked(edges, start, other) {
        assert(here.contains(start) && linked(edges, start, other));
    }
}

/// What lies one edge further than some depth lies within the next depth, and nothing else.
pub proof fn each_step_is_one_edge(edges: Seq<EdgeV>, start: NodeId, depth: nat, other: NodeId)
    ensures
        within(edges, start, depth + 1).contains(other) <==> within(edges, start, depth).contains(
            other,
        ) || exists|i: int|
            0 <= i < edges.len() && ((within(edges, start, depth).contains((#[trigger] edges[i]).from)
                && edges[i].to == other) || (within(edges, start, depth).contains(edges[i].to)
                && edges[i].from == other)),
{
    let near = within(edges, start, depth);
    if exists|i: int|
        0 <= i < edges.len() && ((near.contains((#[trigger] edges[i]).from) && edges[i].to == other)
            || (near.contains(edges[i].to) && edges[i].from == other)) {
        let i = choose|i: int|
            0 <= i < edges.len() && ((near.contains((#[trigger] edges[i]).from) && edges[i].to
                == other) || (near.contains(edges[i].to) && edges[i].from == other));
        if near.contains(edges[i].from) && edges[i].to == other {
            assert(joins(edges[i], edges[i].from, other));
            assert(near.contains(edges[i].from) && linked(edges, edges[i].from, other));
        } else {
            assert(joins(edges[i], edges[i].to, other));
            assert(near.contains(edges[i].to) && linked(edges, edges[i].to, other));
        }
    }
    if within(edges, start, depth + 1).contains(other) && !near.contains(other) {
        let a = choose|a: NodeId| #[trigger] near.contains(a) && linked(edges, a, other);
        let i = choose|i: int| 0 <= i < edges.len() && joins(#[trigger] edges[i], a, other);
        assert(near.contains(edges[i].from) || near.contains(edges[i].to));
    }
}

/// A node was replaced by what the last edge that supersedes it comes from.
pub proof fn the_last_supersession_counts(edges: Seq<EdgeV>, i: int)
    requires
        0 <= i < edges.len(),
        edges[i].kind == EdgeKind::Supersedes,
        forall|j: int|
            i < j < edges.len() && (#[trigger] edges[j]).kind == EdgeKind::Supersedes
                ==> edges[j].to != edges[i].to,
    ensures
        superseders(edges).contains_key(edges[i].to),
        superseders(edges)[edges[i].to] == edges[i].from,
    decreases edges.len(),
{
    let init = edges.drop_last();
    if i < init.len() {
        assert(init[i] == edges[i]);
        assert forall|j: int|
            i < j < init.len() && (#[trigger] init[j]).kind == EdgeKind::Supersedes implies init[j].to
            != init[i].to by {
            assert(init[j] == edges[j]);
        }
        the_last_supersession_counts(init, i);
        assert(edges[edges.len() - 1] == edges.last());
    }
}

/// Only what an edge supersedes was replaced.
pub proof fn only_supersessions_count(edges: Seq<EdgeV>, id: NodeId)
    requires
        superseders(edges).contains_key(id),
    ensures
        exists|i: int|
            0 <= i < edges.len() && (#[trigger] edges[i]).kind == EdgeKind::Supersedes && edges[i].to
                == id && edges[i].from == superseders(edges)[id],
    decreases edges.len(),
{
    let init = edges.drop_last();
    let e = edges[edges.len() - 1];
    if e.kind == EdgeKind::Supersedes && e.to == id {
    } else {
        only_supersessions_count(init, id);
        let i = choose|i: int|
            0 <= i < init.len() && (#[trigger] init[i]).kind == EdgeKind::Supersedes && init[i].to
                == id && init[i].from == superseders(init)[id];
        assert(edges[i] == init[i]);
    }
}

/// Merging keeps the newer name of a node and loses no text: the newer text stands where there is
/// any, and else the older one; attributes of both are kept, the newer ones first.
pub proof fn merging_loses_nothing(older: NodeV, newer: NodeV, key: Seq<char>)
    ensures
        merged(older, newer).id == newer.id,
        merged(older, newer).kind == newer.kind,
        merged(older, newer).label == newer.label,
        merged(older, newer).first_seen_ms == older.first_seen_ms || merged(
            older,
            newer,
        ).first_seen_ms == newer.first_seen_ms,
        merged(older, newer).first_seen_ms <= newer.first_seen_ms,
        merged(older, newer).last_updated_ms == older.last_updated_ms || merged(
            older,
            newer,
        ).last_updated_ms == newer.last_updated_ms,
        merged(older, newer).last_updated_ms >= newer.last_updated_ms,
        newer.body.len() != 0 ==> merged(older, newer).body == newer.body,
        newer.body.len() == 0 ==> merged(older, newer).body == older.body,
        newer.summary.len() != 0 ==> merged(older, newer).summary == newer.summary,
        newer.summary.len() == 0 ==> merged(older, newer).summary == older.summary,
        newer.attrs.contains_key(key) ==> merged(older, newer).attrs.contains_key(key) && merged(
            older,
            newer,
        ).attrs[key] == newer.attrs[key],
        !newer.attrs.contains_key(key) && older.attrs.contains_key(key) ==> merged(
            older,
            newer,
        ).attrs.contains_key(key) && merged(older, newer).attrs[key] == older.attrs[key],
        older.provenance is None ==> merged(older, newer).provenance == newer.provenance,
        newer.provenance is None ==> merged(older, newer).provenance == older.provenance,
        older.provenance matches Some(o) && newer.provenance matches Some(n) && n.source_priority
            > o.source_priority ==> merged(older, newer).provenance == newer.provenance,
        older.provenance matches Some(o) && newer.provenance matches Some(n) && n.source_priority
            <= o.source_priority ==> merged(older, newer).provenance == older.provenance,
{
}

/// A new node is there as it was given, behind all the others; a node that was there stays in
/// its place. No other node and no edge changes.
pub proof fn upserting_touches_one_node(g: GraphV, n: NodeV, other: NodeId)
    requires
        other != n.id,
    ensures
        !g.nodes.contains_key(n.id) ==> with_node(g, n).nodes[n.id] == n && with_node(g, n).order
            == g.order + seq![n.id],
        g.nodes.contains_key(n.id) ==> with_node(g, n).order == g.order,
        with_node(g, n).nodes.contains_key(n.id),
        with_node(g, n).nodes.contains_key(other) == g.nodes.contains_key(other),
        with_node(g, n).nodes[other] == g.nodes[other],
        with_node(g, n).edges == g.edges,
{
    assert(g.order.push(n.id) =~= g.order + seq![n.id]);
}

/// An edge is added exactly where both its ends are there and no edge has its ends and its
/// kind; nothing else changes.
pub proof fn edges_are_added_once(g: GraphV, e: EdgeV)
    ensures
        (g.nodes.contains_key(e.from) && g.nodes.contains_key(e.to) && forall|i: int|
            0 <= i < g.edges.len() ==> !((#[trigger] g.edges[i]).from == e.from && g.edges[i].to
                == e.to && g.edges[i].kind == e.kind)) ==> with_edge(g, e).edges == g.edges + seq![e],
        !g.nodes.contains_key(e.from) || !g.nodes.contains_key(e.to) ==> with_edge(g, e).edges
            == g.edges,
        (exists|i: int|
            0 <= i < g.edges.len() && (#[trigger] g.edges[i]).from == e.from && g.edges[i].to == e.to
                && g.edges[i].kind == e.kind) ==> with_edge(g, e).edges == g.edges,
        with_edge(g, e).nodes == g.nodes,
        with_edge(g, e).order == g.order,
{
    assert(g.edges.push(e) =~= g.edges + seq![e]);
    if exists|i: int|
        0 <= i < g.edges.len() && (#[trigger] g.edges[i]).from == e.from && g.edges[i].to == e.to
            && g.edges[i].kind == e.kind {
        let i = choose|i: int|
            0 <= i < g.edges.len() && (#[trigger] g.edges[i]).from == e.from && g.edges[i].to == e.to
                && g.edges[i].kind == e.kind;
        assert(same_key(g.edges[i], e));
    }
}

/// Viewing a list keeps all its items, in their order.
pub proof fn edge_views_keep_all(v: Seq<Edge>, i: int)
    requires
        0 <= i < v.len(),
    ensures
        edge_views(v).len() == v.len(),
        edge_views(v)[i] == v[i]@,
{
}

/// Viewing a list keeps all its items, in their order.
pub proof fn node_views_keep_all(v: Seq<Node>, i: int)
    requires
        0 <= i < v.len(),
    ensures
        node_views(v).len() == v.len(),
        node_views(v)[i] == v[i]@,
{
}

/// The nodes with some ids come in ascending order of their ids.
pub proof fn nodes_come_by_id(nodes: Map<NodeId, NodeV>, ids: Set<NodeId>, i: int, j: int)
    requires
        ids.finite(),
        0 <= i < j < nodes_of(nodes, ids).len(),
    ensures
        exists|a: NodeId, b: NodeId|
            a < b && #[trigger] ids.contains(a) && #[trigger] ids.contains(b) && nodes_of(
                nodes,
                ids,
            )[i] == nodes[a] && nodes_of(nodes, ids)[j] == nodes[b],
{
    rank::lemma_ids_listed(ids);
    let listed = rank::ids_in_order(ids);
    let (a, b) = (listed[i], listed[j]);
    assert(listed.contains(a) && listed.contains(b));
    assert(ids.contains(a) && ids.contains(b));
}

} // verus!
