//! Why recovery works: what is written is complete, what was saved is read back, and replaying
//! it again changes nothing.

use vstd::prelude::*;

use crate::decision::CandidateV;
use crate::graph;
use crate::graph::GraphV;
use crate::index;
use crate::index::IndexV;
use crate::model;
use crate::model::{EdgeKind, EdgeV, F32Bits, NodeId, NodeKind, NodeV};
use crate::records;
use crate::records::{MutationV, RepoContext, SessionContext};
use crate::store;
use crate::store::{Saved, StoreV, WalRecordV};
use crate::text;

verus! {

// ---------------------------------------------------------------------------
// Nodes before edges
// ---------------------------------------------------------------------------

/// The ids of the nodes in a plan.
pub open spec fn plan_ids(plan: Seq<MutationV>) -> Set<NodeId> {
    Set::new(
        |id: NodeId|
            exists|i: int|
                0 <= i < plan.len() && ((#[trigger] plan[i]) matches MutationV::Node(n) && n.id == id),
    )
}

/// Whether the ends of each edge are known, or come earlier in the plan.
pub open spec fn ordered(known: Set<NodeId>, plan: Seq<MutationV>) -> bool {
    forall|i: int|
        0 <= i < plan.len() ==> ((#[trigger] plan[i]) matches MutationV::Edge(e) ==> known.union(
            plan_ids(plan.take(i)),
        ).contains(e.from) && known.union(plan_ids(plan.take(i))).contains(e.to))
}

proof fn lemma_ids_concat(a: Seq<MutationV>, b: Seq<MutationV>)
    ensures
        plan_ids(a + b) == plan_ids(a).union(plan_ids(b)),
{
    let c = a + b;
    assert forall|id: NodeId| #[trigger] plan_ids(c).contains(id) <==> plan_ids(a).union(
        plan_ids(b),
    ).contains(id) by {
        if plan_ids(c).contains(id) {
            let i = choose|i: int|
                0 <= i < c.len() && ((#[trigger] c[i]) matches MutationV::Node(n) && n.id == id);
            if i < a.len() {
                assert(a[i] == c[i]);
            } else {
                assert(b[i - a.len()] == c[i]);
            }
        }
        if plan_ids(a).contains(id) {
            let i = choose|i: int|
                0 <= i < a.len() && ((#[trigger] a[i]) matches MutationV::Node(n) && n.id == id);
            assert(c[i] == a[i]);
        }
        if plan_ids(b).contains(id) {
            let i = choose|i: int|
                0 <= i < b.len() && ((#[trigger] b[i]) matches MutationV::Node(n) && n.id == id);
            assert(c[i + a.len()] == b[i]);
        }
    }
    assert(plan_ids(c) =~= plan_ids(a).union(plan_ids(b)));
}

proof fn lemma_ordered_concat(known: Set<NodeId>, a: Seq<MutationV>, b: Seq<MutationV>)
    requires
        ordered(known, a),
        ordered(known.union(plan_ids(a)), b),
    ensures
        ordered(known, a + b),
{
    let c = a + b;
    assert forall|i: int| 0 <= i < c.len() implies ((#[trigger] c[i]) matches MutationV::Edge(e)
        ==> known.union(plan_ids(c.take(i))).contains(e.from) && known.union(
        plan_ids(c.take(i)),
    ).contains(e.to)) by {
        if i < a.len() {
            assert(c.take(i) =~= a.take(i));
            assert(c[i] == a[i]);
        } else {
            let j = i - a.len();
            assert(c.take(i) =~= a + b.take(j));
            lemma_ids_concat(a, b.take(j));
            assert(c[i] == b[j]);
        }
    }
}

proof fn lemma_ordered_wider(known: Set<NodeId>, wider: Set<NodeId>, plan: Seq<MutationV>)
    requires
        ordered(known, plan),
        known.subset_of(wider),
    ensures
        ordered(wider, plan),
{
    assert forall|i: int| 0 <= i < plan.len() implies ((#[trigger] plan[i]) matches MutationV::Edge(e)
        ==> wider.union(plan_ids(plan.take(i))).contains(e.from) && wider.union(
        plan_ids(plan.take(i)),
    ).contains(e.to)) by {}
}

/// A node and an edge from a known node to it.
proof fn lemma_node_then_edge(known: Set<NodeId>, n: NodeV, from: NodeId, to: NodeId, kind: EdgeKind)
    requires
        known.contains(from) || from == n.id,
        known.contains(to) || to == n.id,
    ensures
        ordered(
            known,
            seq![MutationV::Node(n), MutationV::Edge(model::new_edge(from, to, kind))],
        ),
{
    let p = seq![MutationV::Node(n), MutationV::Edge(model::new_edge(from, to, kind))];
    assert forall|i: int| 0 <= i < p.len() implies ((#[trigger] p[i]) matches MutationV::Edge(e)
        ==> known.union(plan_ids(p.take(i))).contains(e.from) && known.union(
        plan_ids(p.take(i)),
    ).contains(e.to)) by {
        if i == 1 {
            assert(p.take(1)[0] == MutationV::Node(n));
            assert(plan_ids(p.take(1)).contains(n.id));
        }
    }
}

proof fn lemma_no_edges(known: Set<NodeId>, plan: Seq<MutationV>)
    requires
        forall|i: int| 0 <= i < plan.len() ==> !((#[trigger] plan[i]) is Edge),
    ensures
        ordered(known, plan),
{
}

proof fn lemma_one_edge(known: Set<NodeId>, e: EdgeV)
    requires
        known.contains(e.from),
        known.contains(e.to),
    ensures
        ordered(known, seq![MutationV::Edge(e)]),
{
}

proof fn lemma_files_ordered(
    known: Set<NodeId>,
    owner: NodeId,
    kind: EdgeKind,
    touched: Seq<Seq<char>>,
    canonical: Seq<Seq<char>>,
    repo: Option<Seq<char>>,
    now: i64,
)
    requires
        known.contains(owner),
    ensures
        ordered(known, records::files_part(owner, kind, touched, canonical, repo, now)),
    decreases touched.len(),
{
    if touched.len() != 0 {
        let before = records::files_part(owner, kind, touched.drop_last(), canonical, repo, now);
        lemma_files_ordered(known, owner, kind, touched.drop_last(), canonical, repo, now);
        let i = touched.len() - 1;
        let rel = crate::paths::relative(repo, touched[i], canonical[i]);
        let file = records::file_node(records::repo_or_empty(repo), rel, now);
        lemma_node_then_edge(known.union(plan_ids(before)), file, owner, file.id, kind);
        lemma_ordered_concat(
            known,
            before,
            seq![
                MutationV::Node(file),
                MutationV::Edge(model::new_edge(owner, file.id, kind)),
            ],
        );
    }
}

/// A node with its embedding, then an edge, then its files.
proof fn lemma_block_ordered(
    known: Set<NodeId>,
    node: NodeV,
    embed: Seq<MutationV>,
    e: EdgeV,
    files: Seq<MutationV>,
)
    requires
        forall|i: int| 0 <= i < embed.len() ==> (#[trigger] embed[i]) is Embed,
        known.contains(e.from) || e.from == node.id,
        known.contains(e.to) || e.to == node.id,
        ordered(known.insert(node.id), files),
    ensures
        ordered(known, seq![MutationV::Node(node)] + embed + seq![MutationV::Edge(e)] + files),
{
    let head = seq![MutationV::Node(node)] + embed;
    assert forall|i: int| 0 <= i < head.len() implies !((#[trigger] head[i]) is Edge) by {
        if i > 0 {
            assert(head[i] == embed[i - 1]);
        }
    }
    lemma_no_edges(known, head);
    assert(head[0] == MutationV::Node(node));
    assert(plan_ids(head).contains(node.id));
    lemma_one_edge(known.union(plan_ids(head)), e);
    lemma_ordered_concat(known, head, seq![MutationV::Edge(e)]);
    let more = head + seq![MutationV::Edge(e)];
    lemma_ids_concat(head, seq![MutationV::Edge(e)]);
    lemma_ordered_wider(known.insert(node.id), known.union(plan_ids(more)), files);
    lemma_ordered_concat(known, more, files);
}

proof fn lemma_turns_ordered(c: SessionContext, n: nat, known: Set<NodeId>)
    requires
        known.contains(records::session_node_id(c.session)),
    ensures
        ordered(known, records::turns_part(c, n)),
    decreases n,
{
    if n != 0 {
        lemma_turns_ordered(c, (n - 1) as nat, known);
        let before = records::turns_part(c, (n - 1) as nat);
        let wider = known.union(plan_ids(before));
        let t = c.session.turns[n - 1];
        let node = records::turn_node(c, t);
        if records::is_kept(t) {
            let files = records::files_part(
                node.id,
                EdgeKind::Touches,
                t.touched_files,
                c.canonical[n - 1],
                c.repo,
                c.now,
            );
            lemma_files_ordered(
                wider.insert(node.id),
                node.id,
                EdgeKind::Touches,
                t.touched_files,
                c.canonical[n - 1],
                c.repo,
                c.now,
            );
            lemma_block_ordered(
                wider,
                node,
                records::embed_part(node.id, t.text),
                model::new_edge(
                    records::session_node_id(c.session),
                    node.id,
                    EdgeKind::Contains,
                ),
                files,
            );
        }
        lemma_ordered_concat(known, before, records::turn_part(c, n - 1));
    }
}

proof fn lemma_decisions_ordered(c: SessionContext, cands: Seq<CandidateV>, known: Set<NodeId>)
    requires
        known.contains(records::session_node_id(c.session)),
    ensures
        ordered(known, records::decisions_part(c, cands)),
    decreases cands.len(),
{
    if cands.len() != 0 {
        lemma_decisions_ordered(c, cands.drop_last(), known);
        let before = records::decisions_part(c, cands.drop_last());
        let wider = known.union(plan_ids(before));
        let cand = cands.last();
        let node = records::decision_node(c, cand);
        let i = cand.turn_index as int;
        let files = if i < c.session.turns.len() {
            records::files_part(
                node.id,
                EdgeKind::Produced,
                c.session.turns[i].touched_files,
                c.canonical[i],
                c.repo,
                c.now,
            )
        } else {
            Seq::empty()
        };
        if i < c.session.turns.len() {
            lemma_files_ordered(
                wider.insert(node.id),
                node.id,
                EdgeKind::Produced,
                c.session.turns[i].touched_files,
                c.canonical[i],
                c.repo,
                c.now,
            );
        }
        lemma_block_ordered(
            wider,
            node,
            records::embed_part(node.id, crate::redact::redacted(cand.text)),
            model::new_edge(node.id, records::session_node_id(c.session), EdgeKind::DecidedIn),
            files,
        );
        lemma_ordered_concat(known, before, records::decision_part(c, cand));
    }
}

/// In what is written for a session, every node comes before the edges that need it.
pub proof fn session_plan_is_ordered(c: SessionContext, cands: Seq<CandidateV>)
    ensures
        ordered(Set::empty(), records::session_plan(c, cands)),
{
    let none = Set::<NodeId>::empty();
    let id = records::session_node_id(c.session);
    let node = records::session_node(c);
    let start = seq![MutationV::Node(node)] + records::embed_part(
        id,
        records::intro(c.session.turns),
    );
    lemma_no_edges(none, start);
    assert(start[0] == MutationV::Node(node));
    assert(plan_ids(start).contains(id));
    let head = records::session_head(c);
    match c.repo {
        Some(repo) => {
            let rn = records::repo_node(repo, crate::paths::base_of(repo), c.now);
            let tail = seq![
                MutationV::Node(rn),
                MutationV::Edge(
                    model::new_edge(
                        id,
                        model::id_of(NodeKind::Repo, repo),
                        EdgeKind::DerivedFrom,
                    ),
                ),
            ];
            lemma_node_then_edge(
                none.union(plan_ids(start)),
                rn,
                id,
                model::id_of(NodeKind::Repo, repo),
                EdgeKind::DerivedFrom,
            );
            lemma_ordered_concat(none, start, tail);
            lemma_ids_concat(start, tail);
            assert(head =~= start + tail);
        },
        None => {
            assert(head =~= start);
        },
    }
    assert(plan_ids(head).contains(id));
    let turns = records::turns_part(c, c.session.turns.len());
    lemma_turns_ordered(c, c.session.turns.len(), none.union(plan_ids(head)));
    lemma_ordered_concat(none, head, turns);
    lemma_ids_concat(head, turns);
    lemma_decisions_ordered(c, cands, none.union(plan_ids(head + turns)));
    lemma_ordered_concat(none, head + turns, records::decisions_part(c, cands));
}

proof fn lemma_frameworks_ordered(root: Seq<char>, names: Seq<Seq<char>>, now: i64, known: Set<NodeId>)
    requires
        known.contains(records::repo_id(root)),
    ensures
        ordered(known, records::frameworks_part(root, names, now)),
    decreases names.len(),
{
    if names.len() != 0 {
        lemma_frameworks_ordered(root, names.drop_last(), now, known);
        let before = records::frameworks_part(root, names.drop_last(), now);
        let node = model::new_node(NodeKind::Framework, names.last(), names.last(), now);
        lemma_node_then_edge(
            known.union(plan_ids(before)),
            node,
            records::repo_id(root),
            node.id,
            EdgeKind::DependsOn,
        );
        lemma_ordered_concat(
            known,
            before,
            seq![
                MutationV::Node(node),
                MutationV::Edge(
                    model::new_edge(records::repo_id(root), node.id, EdgeKind::DependsOn),
                ),
            ],
        );
    }
}

proof fn lemma_symbols_ordered(
    root: Seq<char>,
    rel: Seq<char>,
    syms: Seq<crate::coderepo::SymbolV>,
    now: i64,
    known: Set<NodeId>,
)
    requires
        known.contains(records::file_node(root, rel, now).id),
    ensures
        ordered(known, records::symbols_part(root, rel, syms, now)),
    decreases syms.len(),
{
    if syms.len() != 0 {
        lemma_symbols_ordered(root, rel, syms.drop_last(), now, known);
        let before = records::symbols_part(root, rel, syms.drop_last(), now);
        let wider = known.union(plan_ids(before));
        let node = records::symbol_node(root, rel, syms.last(), now);
        let file = records::file_node(root, rel, now).id;
        lemma_node_then_edge(wider, node, file, node.id, EdgeKind::Defines);
        let two = seq![
            MutationV::Node(node),
            MutationV::Edge(model::new_edge(file, node.id, EdgeKind::Defines)),
        ];
        let embed = seq![MutationV::Embed(node.id, syms.last().name)];
        lemma_no_edges(wider.union(plan_ids(two)), embed);
        lemma_ordered_concat(wider, two, embed);
        assert(two + embed =~= seq![
            MutationV::Node(node),
            MutationV::Edge(model::new_edge(file, node.id, EdgeKind::Defines)),
            MutationV::Embed(node.id, syms.last().name),
        ]);
        lemma_ordered_concat(known, before, two + embed);
    }
}

proof fn lemma_scanned_files_ordered(
    root: Seq<char>,
    files: Seq<(Seq<char>, Seq<crate::coderepo::SymbolV>)>,
    now: i64,
    known: Set<NodeId>,
)
    requires
        known.contains(records::repo_id(root)),
    ensures
        ordered(known, records::scanned_files_part(root, files, now)),
    decreases files.len(),
{
    if files.len() != 0 {
        lemma_scanned_files_ordered(root, files.drop_last(), now, known);
        let before = records::scanned_files_part(root, files.drop_last(), now);
        let wider = known.union(plan_ids(before));
        let (rel, syms) = files.last();
        let node = records::file_node(root, rel, now);
        let repo = records::repo_id(root);
        let two = seq![
            MutationV::Node(node),
            MutationV::Edge(model::new_edge(repo, node.id, EdgeKind::Contains)),
        ];
        let embed = seq![
            MutationV::Embed(
                node.id,
                rel.push(' ') + text::joined(records::symbol_names(syms), " "@),
            ),
        ];
        lemma_node_then_edge(wider, node, repo, node.id, EdgeKind::Contains);
        lemma_no_edges(wider.union(plan_ids(two)), embed);
        lemma_ordered_concat(wider, two, embed);
        let three = two + embed;
        assert(three[0] == MutationV::Node(node));
        assert(plan_ids(three).contains(node.id));
        lemma_symbols_ordered(root, rel, syms, now, wider.union(plan_ids(three)));
        lemma_ordered_concat(wider, three, records::symbols_part(root, rel, syms, now));
        assert(three + records::symbols_part(root, rel, syms, now) =~= records::scanned_file_part(
            root,
            rel,
            syms,
            now,
        ));
        lemma_ordered_concat(known, before, records::scanned_file_part(root, rel, syms, now));
    }
}

proof fn lemma_changed_ordered(c: RepoContext, commit: NodeId, changed: Seq<Seq<char>>, known: Set<NodeId>)
    requires
        known.contains(commit),
    ensures
        ordered(known, records::changed_part(c, commit, changed)),
    decreases changed.len(),
{
    if changed.len() != 0 {
        lemma_changed_ordered(c, commit, changed.drop_last(), known);
        let before = records::changed_part(c, commit, changed.drop_last());
        let rel = match records::below_prefix(changed.last(), c.prefix) {
            Some(rel) => rel,
            None => Seq::empty(),
        };
        let file = records::file_node(c.root, rel, c.now);
        lemma_node_then_edge(
            known.union(plan_ids(before)),
            file,
            file.id,
            commit,
            EdgeKind::ChangedBy,
        );
        lemma_ordered_concat(
            known,
            before,
            seq![
                MutationV::Node(file),
                MutationV::Edge(model::new_edge(file.id, commit, EdgeKind::ChangedBy)),
            ],
        );
    }
}

proof fn lemma_commits_ordered(c: RepoContext, commits: Seq<crate::git::CommitV>, known: Set<NodeId>)
    requires
        known.contains(records::repo_id(c.root)),
    ensures
        ordered(known, records::commits_part(c, commits)),
    decreases commits.len(),
{
    if commits.len() != 0 {
        lemma_commits_ordered(c, commits.drop_last(), known);
        let before = records::commits_part(c, commits.drop_last());
        let wider = known.union(plan_ids(before));
        let node = records::commit_node(commits.last());
        let repo = records::repo_id(c.root);
        let two = seq![
            MutationV::Node(node),
            MutationV::Edge(model::new_edge(repo, node.id, EdgeKind::Contains)),
        ];
        lemma_node_then_edge(wider, node, repo, node.id, EdgeKind::Contains);
        assert(two[0] == MutationV::Node(node));
        assert(plan_ids(two).contains(node.id));
        lemma_changed_ordered(c, node.id, commits.last().changed, wider.union(plan_ids(two)));
        lemma_ordered_concat(
            wider,
            two,
            records::changed_part(c, node.id, commits.last().changed),
        );
        lemma_ordered_concat(known, before, records::commit_part(c, commits.last()));
    }
}

/// In what is written for a repository, every node comes before the edges that need it.
pub proof fn repo_plan_is_ordered(c: RepoContext)
    ensures
        ordered(Set::empty(), records::repo_plan(c)),
{
    let none = Set::<NodeId>::empty();
    let node = records::scanned_repo_node(c);
    let id = records::repo_id(c.root);
    let head = seq![MutationV::Node(node)];
    lemma_no_edges(none, head);
    assert(head[0] == MutationV::Node(node));
    assert(node.id == id);
    assert(plan_ids(head).contains(id));
    let fws = records::frameworks_part(c.root, c.scan.frameworks, c.now);
    lemma_frameworks_ordered(c.root, c.scan.frameworks, c.now, none.union(plan_ids(head)));
    lemma_ordered_concat(none, head, fws);
    lemma_ids_concat(head, fws);
    let files = records::scanned_files_part(c.root, c.scan.files, c.now);
    lemma_scanned_files_ordered(c.root, c.scan.files, c.now, none.union(plan_ids(head + fws)));
    lemma_ordered_concat(none, head + fws, files);
    lemma_ids_concat(head + fws, files);
    match c.history {
        Some(h) => {
            lemma_commits_ordered(c, h.commits, none.union(plan_ids(head + fws + files)));
            lemma_ordered_concat(none, head + fws + files, records::commits_part(c, h.commits));
        },
        None => {
            assert(head + fws + files + Seq::<MutationV>::empty() =~= head + fws + files);
        },
    }
}

// ---------------------------------------------------------------------------
// Records
// ---------------------------------------------------------------------------

/// The ids of the nodes in records.
pub open spec fn record_ids(recs: Seq<WalRecordV>) -> Set<NodeId> {
    Set::new(
        |id: NodeId|
            exists|i: int|
                0 <= i < recs.len() && ((#[trigger] recs[i]) matches WalRecordV::Node(n) && n.id == id),
    )
}

/// Whether the ends of each edge are known, or come earlier in the records.
pub open spec fn records_ordered(known: Set<NodeId>, recs: Seq<WalRecordV>) -> bool {
    forall|i: int|
        0 <= i < recs.len() ==> ((#[trigger] recs[i]) matches WalRecordV::Edge(e) ==> known.union(
            record_ids(recs.take(i)),
        ).contains(e.from) && known.union(record_ids(recs.take(i))).contains(e.to))
}

/// Embedding the texts of a plan keeps nodes before edges.
pub proof fn resolving_keeps_order(known: Set<NodeId>, plan: Seq<MutationV>, vectors: Seq<Seq<F32Bits>>)
    requires
        ordered(known, plan),
    ensures
        records_ordered(known, store::resolved(plan, vectors)),
{
    let recs = store::resolved(plan, vectors);
    assert forall|i: int| 0 <= i < recs.len() implies ((#[trigger] recs[i]) matches WalRecordV::Edge(e)
        ==> known.union(record_ids(recs.take(i))).contains(e.from) && known.union(
        record_ids(recs.take(i)),
    ).contains(e.to)) by {
        if let WalRecordV::Edge(e) = recs[i] {
            assert(plan[i] == MutationV::Edge(e));
            assert forall|id: NodeId| plan_ids(plan.take(i)).contains(id) implies record_ids(
                recs.take(i),
            ).contains(id) by {
                let j = choose|j: int|
                    0 <= j < plan.take(i).len() && ((#[trigger] plan.take(i)[j]) matches MutationV::Node(
                        n,
                    ) && n.id == id);
                assert(plan[j] == plan.take(i)[j]);
                assert(recs.take(i)[j] == recs[j]);
            }
        }
    }
}

proof fn lemma_ids_last(recs: Seq<WalRecordV>)
    requires
        recs.len() > 0,
    ensures
        record_ids(recs) == (match recs.last() {
            WalRecordV::Node(n) => record_ids(recs.drop_last()).insert(n.id),
            _ => record_ids(recs.drop_last()),
        }),
{
    let init = recs.drop_last();
    let k = recs.len() - 1;
    let want = match recs.last() {
        WalRecordV::Node(n) => record_ids(init).insert(n.id),
        _ => record_ids(init),
    };
    assert forall|id: NodeId| #[trigger] record_ids(recs).contains(id) <==> want.contains(id) by {
        if record_ids(recs).contains(id) {
            let i = choose|i: int|
                0 <= i < recs.len() && ((#[trigger] recs[i]) matches WalRecordV::Node(n) && n.id == id);
            if i < k {
                assert(init[i] == recs[i]);
            }
        }
        if record_ids(init).contains(id) {
            let i = choose|i: int|
                0 <= i < init.len() && ((#[trigger] init[i]) matches WalRecordV::Node(n) && n.id == id);
            assert(recs[i] == init[i]);
        }
        assert(recs[k] == recs.last());
    }
    assert(record_ids(recs) =~= want);
}

proof fn lemma_dom(s: StoreV, recs: Seq<WalRecordV>)
    ensures
        store::applied_all(s, recs).graph.nodes.dom() == s.graph.nodes.dom().union(record_ids(recs)),
    decreases recs.len(),
{
    if recs.len() == 0 {
        assert(s.graph.nodes.dom().union(record_ids(recs)) =~= s.graph.nodes.dom());
    } else {
        lemma_dom(s, recs.drop_last());
        lemma_ids_last(recs);
        assert(store::applied_all(s, recs).graph.nodes.dom() =~= s.graph.nodes.dom().union(
            record_ids(recs),
        ));
    }
}

proof fn lemma_edges_grow(s: StoreV, recs: Seq<WalRecordV>, n: int)
    requires
        0 <= n <= recs.len(),
    ensures
        forall|e: EdgeV|
            graph::has_key(store::applied_all(s, recs.take(n)).graph.edges, e)
                ==> #[trigger] graph::has_key(store::applied_all(s, recs).graph.edges, e),
    decreases recs.len() - n,
{
    if n < recs.len() {
        assert(recs.take(n + 1).drop_last() =~= recs.take(n));
        let a = store::applied_all(s, recs.take(n)).graph.edges;
        let b = store::applied_all(s, recs.take(n + 1)).graph.edges;
        assert forall|e: EdgeV| graph::has_key(a, e) implies #[trigger] graph::has_key(b, e) by {
            let i = choose|i: int| 0 <= i < a.len() && graph::same_key(#[trigger] a[i], e);
            assert(b[i] == a[i]);
        }
        lemma_edges_grow(s, recs, n + 1);
    } else {
        assert(recs.take(n) =~= recs);
    }
}

/// Of records in which nodes come before edges none is lost: afterwards every node and every
/// edge of them is in the graph.
pub proof fn ordered_records_all_arrive(s: StoreV, recs: Seq<WalRecordV>)
    requires
        records_ordered(s.graph.nodes.dom(), recs),
    ensures
        forall|i: int|
            0 <= i < recs.len() ==> match #[trigger] recs[i] {
                WalRecordV::Node(n) => store::applied_all(s, recs).graph.nodes.contains_key(n.id),
                WalRecordV::Edge(e) => graph::has_key(store::applied_all(s, recs).graph.edges, e),
                WalRecordV::Vector(_, _) => true,
            },
{
    lemma_dom(s, recs);
    let done = store::applied_all(s, recs);
    assert forall|i: int| 0 <= i < recs.len() implies match #[trigger] recs[i] {
        WalRecordV::Node(n) => done.graph.nodes.contains_key(n.id),
        WalRecordV::Edge(e) => graph::has_key(done.graph.edges, e),
        WalRecordV::Vector(_, _) => true,
    } by {
        match recs[i] {
            WalRecordV::Node(n) => {
                assert(record_ids(recs).contains(n.id));
            },
            WalRecordV::Edge(e) => {
                let before = store::applied_all(s, recs.take(i));
                lemma_dom(s, recs.take(i));
                assert(recs.take(i + 1).drop_last() =~= recs.take(i));
                let after = store::applied_all(s, recs.take(i + 1));
                assert(before.graph.nodes.dom().contains(e.from));
                assert(before.graph.nodes.dom().contains(e.to));
                if !graph::has_key(before.graph.edges, e) {
                    assert(after.graph.edges == before.graph.edges.push(e));
                    assert(graph::same_key(after.graph.edges[before.graph.edges.len() as int], e));
                }
                assert(graph::has_key(after.graph.edges, e));
                lemma_edges_grow(s, recs, i + 1);
            },
            WalRecordV::Vector(_, _) => {},
        }
    }
}

// ---------------------------------------------------------------------------
// Replaying again
// ---------------------------------------------------------------------------

/// The value of a key, if there is one.
pub open spec fn lookup<K, V>(m: Map<K, V>, k: K) -> Option<V> {
    if m.contains_key(k) {
        Some(m[k])
    } else {
        None
    }
}

/// What a record makes of one node.
spec fn node_step(o: Option<NodeV>, r: WalRecordV, id: NodeId) -> Option<NodeV> {
    match r {
        WalRecordV::Node(n) => if n.id == id {
            Some(
                match o {
                    Some(x) => graph::merged(x, n),
                    None => n,
                },
            )
        } else {
            o
        },
        _ => o,
    }
}

/// What records make of one node.
spec fn node_fold(o: Option<NodeV>, recs: Seq<WalRecordV>, id: NodeId) -> Option<NodeV>
    decreases recs.len(),
{
    if recs.len() == 0 {
        o
    } else {
        node_step(node_fold(o, recs.drop_last(), id), recs.last(), id)
    }
}

proof fn lemma_node_fold(s: StoreV, recs: Seq<WalRecordV>, id: NodeId)
    ensures
        lookup(store::applied_all(s, recs).graph.nodes, id) == node_fold(
            lookup(s.graph.nodes, id),
            recs,
            id,
        ),
    decreases recs.len(),
{
    if recs.len() != 0 {
        lemma_node_fold(s, recs.drop_last(), id);
    }
}

/// Whether merging a copy into a node leaves times and provenance as they are.
spec fn dominated(f: NodeV, n: NodeV) -> bool {
    &&& f.first_seen_ms <= n.first_seen_ms
    &&& f.last_updated_ms >= n.last_updated_ms
    &&& graph::kept_provenance(f.provenance, n.provenance) == f.provenance
}

proof fn lemma_dominated(o: Option<NodeV>, recs: Seq<WalRecordV>, id: NodeId)
    ensures
        forall|i: int|
            0 <= i < recs.len() ==> ((#[trigger] recs[i]) matches WalRecordV::Node(n) ==> n.id == id
                ==> (node_fold(o, recs, id) matches Some(f) && dominated(f, n))),
    decreases recs.len(),
{
    if recs.len() != 0 {
        let init = recs.drop_last();
        lemma_dominated(o, init, id);
        assert forall|i: int| 0 <= i < recs.len() implies ((#[trigger] recs[i]) matches WalRecordV::Node(
            n,
        ) ==> n.id == id ==> (node_fold(o, recs, id) matches Some(f) && dominated(f, n))) by {
            if i < init.len() {
                assert(init[i] == recs[i]);
            }
        }
    }
}

/// Whether a node, part way through replaying again, agrees field by field with where it ends
/// or with where the first replay stood at this point.
spec fn settled(x: NodeV, f: NodeV, o: Option<NodeV>) -> bool {
    &&& x.id == f.id
    &&& x.first_seen_ms == f.first_seen_ms
    &&& x.last_updated_ms == f.last_updated_ms
    &&& x.provenance == f.provenance
    &&& (x.kind == f.kind || (o matches Some(y) && x.kind == y.kind))
    &&& (x.label == f.label || (o matches Some(y) && x.label == y.label))
    &&& (x.body == f.body || (o matches Some(y) && x.body == y.body))
    &&& (x.summary == f.summary || (o matches Some(y) && x.summary == y.summary))
    &&& forall|k: Seq<char>|
        #![trigger x.attrs.contains_key(k)]
        lookup(x.attrs, k) == lookup(f.attrs, k) || (o matches Some(y) && lookup(x.attrs, k)
            == lookup(y.attrs, k))
}

proof fn lemma_settled_step(x: NodeV, f: NodeV, o: Option<NodeV>, n: NodeV)
    requires
        settled(x, f, o),
        dominated(f, n),
        n.id == f.id,
    ensures
        settled(graph::merged(x, n), f, node_step(o, WalRecordV::Node(n), n.id)),
{
    let z = graph::merged(x, n);
    let w = node_step(o, WalRecordV::Node(n), n.id)->0;
    assert forall|k: Seq<char>|
        #![trigger z.attrs.contains_key(k)]
        lookup(z.attrs, k) == lookup(f.attrs, k) || lookup(z.attrs, k) == lookup(w.attrs, k) by {
        let _ = x.attrs.contains_key(k);
        match o {
            Some(y) => {
                assert(lookup(x.attrs, k) == lookup(f.attrs, k) || lookup(x.attrs, k) == lookup(
                    y.attrs,
                    k,
                ));
            },
            None => {
                assert(lookup(x.attrs, k) == lookup(f.attrs, k));
            },
        }
    }
}

proof fn lemma_fold_id(o: Option<NodeV>, recs: Seq<WalRecordV>, id: NodeId)
    requires
        o matches Some(x) ==> x.id == id,
    ensures
        node_fold(o, recs, id) matches Some(x) ==> x.id == id,
    decreases recs.len(),
{
    if recs.len() != 0 {
        lemma_fold_id(o, recs.drop_last(), id);
    }
}

proof fn lemma_settled(o: Option<NodeV>, recs: Seq<WalRecordV>, id: NodeId, f: NodeV, n: nat)
    requires
        o matches Some(x) ==> x.id == id,
        node_fold(o, recs, id) == Some(f),
        n <= recs.len(),
    ensures
        node_fold(Some(f), recs.take(n as int), id) matches Some(x) && settled(
            x,
            f,
            node_fold(o, recs.take(n as int), id),
        ),
    decreases n,
{
    lemma_fold_id(o, recs, id);
    if n == 0 {
        assert(recs.take(0) =~= Seq::empty());
    } else {
        lemma_settled(o, recs, id, f, (n - 1) as nat);
        assert(recs.take(n as int).drop_last() =~= recs.take(n - 1));
        lemma_dominated(o, recs, id);
        match recs[n - 1] {
            WalRecordV::Node(c) => {
                if c.id == id {
                    let x = node_fold(Some(f), recs.take(n - 1), id)->0;
                    lemma_settled_step(x, f, node_fold(o, recs.take(n - 1), id), c);
                }
            },
            _ => {},
        }
    }
}

proof fn lemma_node_replay(o: Option<NodeV>, recs: Seq<WalRecordV>, id: NodeId)
    requires
        o matches Some(x) ==> x.id == id,
    ensures
        node_fold(node_fold(o, recs, id), recs, id) == node_fold(o, recs, id),
{
    match node_fold(o, recs, id) {
        Some(f) => {
            lemma_settled(o, recs, id, f, recs.len());
            assert(recs.take(recs.len() as int) =~= recs);
            let x = node_fold(Some(f), recs, id)->0;
            assert(settled(x, f, Some(f)));
            assert forall|k: Seq<char>|
                (#[trigger] x.attrs.dom().contains(k)) == f.attrs.dom().contains(k) && (
                x.attrs.dom().contains(k) ==> x.attrs[k] == f.attrs[k]) by {
                assert(x.attrs.contains_key(k) || !x.attrs.contains_key(k));
                assert(lookup(x.attrs, k) == lookup(f.attrs, k));
            }
            assert(x.attrs =~= f.attrs);
            assert(x =~= f);
        },
        None => {
            lemma_none_stays(o, recs, id);
        },
    }
}

proof fn lemma_none_stays(o: Option<NodeV>, recs: Seq<WalRecordV>, id: NodeId)
    requires
        node_fold(o, recs, id) is None,
    ensures
        node_fold(None, recs, id) is None,
    decreases recs.len(),
{
    if recs.len() != 0 {
        let init = recs.drop_last();
        if node_fold(o, init, id) is Some {
            assert(node_step(node_fold(o, init, id), recs.last(), id) is Some);
        }
        lemma_none_stays(o, init, id);
    }
}

/// What records make of one vector.
spec fn vector_fold(o: Option<Seq<F32Bits>>, recs: Seq<WalRecordV>, id: NodeId) -> Option<Seq<F32Bits>>
    decreases recs.len(),
{
    if recs.len() == 0 {
        o
    } else {
        match recs.last() {
            WalRecordV::Vector(k, v) => if k == id {
                Some(v)
            } else {
                vector_fold(o, recs.drop_last(), id)
            },
            _ => vector_fold(o, recs.drop_last(), id),
        }
    }
}

proof fn lemma_vector_fold(s: StoreV, recs: Seq<WalRecordV>, id: NodeId)
    ensures
        lookup(store::applied_all(s, recs).index.vecs, id) == vector_fold(
            lookup(s.index.vecs, id),
            recs,
            id,
        ),
    decreases recs.len(),
{
    if recs.len() != 0 {
        lemma_vector_fold(s, recs.drop_last(), id);
    }
}

proof fn lemma_vector_replay(o: Option<Seq<F32Bits>>, p: Option<Seq<F32Bits>>, recs: Seq<WalRecordV>, id: NodeId)
    ensures
        vector_fold(p, recs, id) == p || vector_fold(p, recs, id) == vector_fold(o, recs, id),
    decreases recs.len(),
{
    if recs.len() != 0 {
        lemma_vector_replay(o, p, recs.drop_last(), id);
    }
}

proof fn lemma_replay_keeps_lists(s: StoreV, recs: Seq<WalRecordV>, n: nat)
    requires
        records_ordered(s.graph.nodes.dom(), recs),
        n <= recs.len(),
    ensures
        ({
            let done = store::applied_all(s, recs);
            let again = store::applied_all(done, recs.take(n as int));
            &&& again.graph.order == done.graph.order
            &&& again.graph.edges == done.graph.edges
            &&& again.graph.nodes.dom() == done.graph.nodes.dom()
            &&& again.index.ids == done.index.ids
            &&& again.index.vecs.dom() == done.index.vecs.dom()
        }),
    decreases n,
{
    let done = store::applied_all(s, recs);
    ordered_records_all_arrive(s, recs);
    if n == 0 {
        assert(recs.take(0) =~= Seq::empty());
    } else {
        lemma_replay_keeps_lists(s, recs, (n - 1) as nat);
        assert(recs.take(n as int).drop_last() =~= recs.take(n - 1));
        let before = store::applied_all(done, recs.take(n - 1));
        let again = store::applied_all(done, recs.take(n as int));
        let r = recs[n - 1];
        match r {
            WalRecordV::Node(x) => {
                assert(done.graph.nodes.contains_key(x.id));
                assert(before.graph.nodes.dom().contains(x.id));
                assert(again.graph.nodes.dom() =~= done.graph.nodes.dom());
            },
            WalRecordV::Edge(e) => {
                assert(graph::has_key(done.graph.edges, e));
            },
            WalRecordV::Vector(id, v) => {
                lemma_vector_arrives(s, recs, n - 1);
                assert(before.index.vecs.dom().contains(id));
                assert(again.index.vecs.dom() =~= done.index.vecs.dom());
            },
        }
    }
}

proof fn lemma_vector_arrives(s: StoreV, recs: Seq<WalRecordV>, i: int)
    requires
        0 <= i < recs.len(),
        recs[i] is Vector,
    ensures
        store::applied_all(s, recs).index.vecs.contains_key(recs[i]->Vector_0),
    decreases recs.len(),
{
    if i < recs.len() - 1 {
        assert(recs.drop_last()[i] == recs[i]);
        lemma_vector_arrives(s, recs.drop_last(), i);
    }
}

/// Replaying records that were applied already changes nothing: recovery may apply a log to a
/// state that holds it.
pub proof fn replay_is_harmless(s: StoreV, recs: Seq<WalRecordV>)
    requires
        records_ordered(s.graph.nodes.dom(), recs),
        forall|id: NodeId| #[trigger]
            s.graph.nodes.contains_key(id) ==> s.graph.nodes[id].id == id,
    ensures
        store::applied_all(store::applied_all(s, recs), recs) == store::applied_all(s, recs),
{
    let done = store::applied_all(s, recs);
    let again = store::applied_all(done, recs);
    lemma_replay_keeps_lists(s, recs, recs.len());
    assert(recs.take(recs.len() as int) =~= recs);
    assert forall|id: NodeId|
        (#[trigger] again.graph.nodes.dom().contains(id)) == done.graph.nodes.dom().contains(id) && (
        again.graph.nodes.dom().contains(id) ==> again.graph.nodes[id] == done.graph.nodes[id]) by {
        lemma_node_fold(s, recs, id);
        lemma_node_fold(done, recs, id);
        assert(s.graph.nodes.contains_key(id) ==> s.graph.nodes[id].id == id);
        lemma_node_replay(lookup(s.graph.nodes, id), recs, id);
        assert(lookup(again.graph.nodes, id) == lookup(done.graph.nodes, id));
    }
    assert(again.graph.nodes =~= done.graph.nodes);
    assert forall|id: NodeId|
        (#[trigger] again.index.vecs.dom().contains(id)) == done.index.vecs.dom().contains(id) && (
        again.index.vecs.dom().contains(id) ==> again.index.vecs[id] == done.index.vecs[id]) by {
        lemma_vector_fold(s, recs, id);
        lemma_vector_fold(done, recs, id);
        lemma_vector_replay(
            lookup(s.index.vecs, id),
            lookup(done.index.vecs, id),
            recs,
            id,
        );
        assert(lookup(again.index.vecs, id) == lookup(done.index.vecs, id));
    }
    assert(again.index.vecs =~= done.index.vecs);
    assert(again =~= done);
}

// ---------------------------------------------------------------------------
// Saving and opening
// ---------------------------------------------------------------------------

proof fn lemma_vector_bytes(v: Seq<F32Bits>)
    ensures
        store::vector_bytes(v).len() == 4 * v.len(),
        forall|i: int|
            0 <= i < v.len() ==> store::vector_bytes(v).subrange(4 * i, 4 * i + 4)
                == vstd::bytes::spec_u32_to_le_bytes(#[trigger] v[i]),
    decreases v.len(),
{
    vstd::bytes::lemma_auto_spec_u32_to_from_le_bytes();
    if v.len() != 0 {
        let t = v.drop_last();
        lemma_vector_bytes(t);
        let b = store::vector_bytes(v);
        assert forall|i: int| 0 <= i < v.len() implies b.subrange(4 * i, 4 * i + 4)
            == vstd::bytes::spec_u32_to_le_bytes(#[trigger] v[i]) by {
            if i < t.len() {
                assert(v[i] == t[i]);
                assert(b.subrange(4 * i, 4 * i + 4) =~= store::vector_bytes(t).subrange(
                    4 * i,
                    4 * i + 4,
                ));
            } else {
                assert(b.subrange(4 * i, 4 * i + 4) =~= vstd::bytes::spec_u32_to_le_bytes(v[i]));
            }
        }
    }
}

/// A vector is read back from its bytes, bit by bit.
pub proof fn vector_is_read_back(v: Seq<F32Bits>)
    ensures
        store::bytes_vector(store::vector_bytes(v)) == Some(v),
{
    vstd::bytes::lemma_auto_spec_u32_to_from_le_bytes();
    lemma_vector_bytes(v);
    let b = store::vector_bytes(v);
    let r = store::bytes_vector(b)->0;
    assert forall|i: int| 0 <= i < v.len() implies r[i] == v[i] by {
        assert(vstd::bytes::spec_u32_to_le_bytes(v[i]).len() == 4);
    }
    assert(r =~= v);
}

/// Edges that differ in an end or in their kind are never keyed by the same bytes.
pub proof fn edge_preimages_differ(a: EdgeV, b: EdgeV)
    requires
        store::edge_preimage(a) == store::edge_preimage(b),
    ensures
        graph::same_key(a, b),
{
    vstd::bytes::lemma_auto_spec_u128_to_from_le_bytes();
    let p = store::edge_preimage(a);
    let (fa, ta) = (
        vstd::bytes::spec_u128_to_le_bytes(a.from),
        vstd::bytes::spec_u128_to_le_bytes(a.to),
    );
    let (fb, tb) = (
        vstd::bytes::spec_u128_to_le_bytes(b.from),
        vstd::bytes::spec_u128_to_le_bytes(b.to),
    );
    assert(fa.len() == 16 && ta.len() == 16 && fb.len() == 16 && tb.len() == 16);
    assert(fa =~= p.subrange(0, 16));
    assert(fb =~= p.subrange(0, 16));
    assert(ta =~= p.subrange(16, 32));
    assert(tb =~= p.subrange(16, 32));
    assert(vstd::utf8::encode_utf8(a.kind.name()) =~= p.skip(32));
    assert(vstd::utf8::encode_utf8(b.kind.name()) =~= p.skip(32));
    vstd::utf8::encode_utf8_decode_utf8(a.kind.name());
    vstd::utf8::encode_utf8_decode_utf8(b.kind.name());
    model::edge_tags_differ(a.kind, b.kind);
}

/// Nodes as records.
pub open spec fn as_nodes(v: Seq<NodeV>) -> Seq<WalRecordV> {
    v.map_values(|n: NodeV| WalRecordV::Node(n))
}

/// Edges as records.
pub open spec fn as_edges(v: Seq<EdgeV>) -> Seq<WalRecordV> {
    v.map_values(|e: EdgeV| WalRecordV::Edge(e))
}

/// Vectors as records.
pub open spec fn as_vectors(v: Seq<(NodeId, Seq<F32Bits>)>) -> Seq<WalRecordV> {
    v.map_values(|x: (NodeId, Seq<F32Bits>)| WalRecordV::Vector(x.0, x.1))
}

/// No id twice.
pub open spec fn ids_once(nodes: Seq<NodeV>) -> bool {
    forall|i: int, j: int|
        0 <= i < j < nodes.len() ==> (#[trigger] nodes[i]).id != (#[trigger] nodes[j]).id
}

/// Whether a list holds the nodes of a graph, each once, in any order.
pub open spec fn holds_nodes(nodes: Seq<NodeV>, g: GraphV) -> bool {
    &&& ids_once(nodes)
    &&& forall|i: int|
        0 <= i < nodes.len() ==> g.nodes.contains_key((#[trigger] nodes[i]).id)
            && g.nodes[nodes[i].id] == nodes[i]
    &&& forall|id: NodeId| #[trigger]
        g.nodes.contains_key(id) ==> exists|i: int| 0 <= i < nodes.len() && nodes[i].id == id
}

/// Whether a list of edges has no two with the same ends and kind, and joins only nodes that
/// are there.
pub open spec fn fits_edges(edges: Seq<EdgeV>, nodes: Map<NodeId, NodeV>) -> bool {
    &&& forall|i: int, j: int|
        0 <= i < j < edges.len() ==> !graph::same_key(#[trigger] edges[i], #[trigger] edges[j])
    &&& forall|i: int|
        0 <= i < edges.len() ==> nodes.contains_key((#[trigger] edges[i]).from)
            && nodes.contains_key(edges[i].to)
}

/// Whether a list holds the vectors of an index, each once, in any order.
pub open spec fn holds_vectors(vectors: Seq<(NodeId, Seq<F32Bits>)>, ix: IndexV) -> bool {
    &&& forall|i: int, j: int|
        0 <= i < j < vectors.len() ==> (#[trigger] vectors[i]).0 != (#[trigger] vectors[j]).0
    &&& forall|i: int|
        0 <= i < vectors.len() ==> ix.vecs.contains_key((#[trigger] vectors[i]).0)
            && ix.vecs[vectors[i].0] == vectors[i].1
    &&& forall|id: NodeId| #[trigger]
        ix.vecs.contains_key(id) ==> exists|i: int| 0 <= i < vectors.len() && vectors[i].0 == id
}

proof fn lemma_load_nodes(nodes: Seq<NodeV>)
    requires
        ids_once(nodes),
    ensures
        ({
            let s = store::applied_all(store::empty_store(), as_nodes(nodes));
            &&& s.graph.order == nodes.map_values(|n: NodeV| n.id)
            &&& s.graph.edges == Seq::<EdgeV>::empty()
            &&& s.index == index::empty_index()
            &&& forall|i: int|
                0 <= i < nodes.len() ==> s.graph.nodes.contains_key((#[trigger] nodes[i]).id)
                    && s.graph.nodes[nodes[i].id] == nodes[i]
            &&& forall|id: NodeId| #[trigger]
                s.graph.nodes.contains_key(id) ==> exists|i: int|
                    0 <= i < nodes.len() && nodes[i].id == id
        }),
    decreases nodes.len(),
{
    let s = store::applied_all(store::empty_store(), as_nodes(nodes));
    if nodes.len() == 0 {
        assert(as_nodes(nodes) =~= Seq::empty());
        assert(nodes.map_values(|n: NodeV| n.id) =~= Seq::empty());
    } else {
        let init = nodes.drop_last();
        let last = nodes.last();
        assert forall|i: int, j: int| 0 <= i < j < init.len() implies (#[trigger] init[i]).id != (
        #[trigger] init[j]).id by {
            assert(init[i] == nodes[i] && init[j] == nodes[j]);
        }
        lemma_load_nodes(init);
        assert(as_nodes(nodes).drop_last() =~= as_nodes(init));
        assert(as_nodes(nodes).last() == WalRecordV::Node(last));
        let p = store::applied_all(store::empty_store(), as_nodes(init));
        assert(!p.graph.nodes.contains_key(last.id)) by {
            if p.graph.nodes.contains_key(last.id) {
                let i = choose|i: int| 0 <= i < init.len() && init[i].id == last.id;
                assert(nodes[i].id == nodes[nodes.len() - 1].id);
            }
        }
        assert(s.graph.order =~= nodes.map_values(|n: NodeV| n.id));
        assert forall|i: int| 0 <= i < nodes.len() implies s.graph.nodes.contains_key(
            (#[trigger] nodes[i]).id,
        ) && s.graph.nodes[nodes[i].id] == nodes[i] by {
            if i < init.len() {
                assert(init[i] == nodes[i]);
                assert(nodes[i].id != nodes[nodes.len() - 1].id);
            }
        }
        assert forall|id: NodeId| #[trigger] s.graph.nodes.contains_key(id) implies exists|i: int|
            0 <= i < nodes.len() && nodes[i].id == id by {
            if id == last.id {
                assert(nodes[nodes.len() - 1].id == id);
            } else {
                assert(p.graph.nodes.contains_key(id));
                let i = choose|i: int| 0 <= i < init.len() && init[i].id == id;
                assert(nodes[i].id == id);
            }
        }
    }
}

proof fn lemma_load_edges(s: StoreV, edges: Seq<EdgeV>)
    requires
        s.graph.edges.len() == 0,
        fits_edges(edges, s.graph.nodes),
    ensures
        store::applied_all(s, as_edges(edges)) == (StoreV {
            graph: GraphV { edges, ..s.graph },
            ..s
        }),
    decreases edges.len(),
{
    if edges.len() == 0 {
        assert(as_edges(edges) =~= Seq::empty());
        assert(s.graph.edges =~= edges);
    } else {
        let init = edges.drop_last();
        let last = edges.last();
        assert forall|i: int, j: int| 0 <= i < j < init.len() implies !graph::same_key(
            #[trigger] init[i],
            #[trigger] init[j],
        ) by {
            assert(init[i] == edges[i] && init[j] == edges[j]);
        }
        assert forall|i: int| 0 <= i < init.len() implies s.graph.nodes.contains_key(
            (#[trigger] init[i]).from,
        ) && s.graph.nodes.contains_key(init[i].to) by {
            assert(init[i] == edges[i]);
        }
        lemma_load_edges(s, init);
        assert(as_edges(edges).drop_last() =~= as_edges(init));
        assert(as_edges(edges).last() == WalRecordV::Edge(last));
        assert(edges[edges.len() - 1] == last);
        if graph::has_key(init, last) {
            let i = choose|i: int| 0 <= i < init.len() && graph::same_key(#[trigger] init[i], last);
            assert(graph::same_key(edges[i], edges[edges.len() - 1]));
        }
        assert(init.push(last) =~= edges);
    }
}

proof fn lemma_load_vectors(s: StoreV, vectors: Seq<(NodeId, Seq<F32Bits>)>)
    requires
        s.index == index::empty_index(),
        forall|i: int, j: int|
            0 <= i < j < vectors.len() ==> (#[trigger] vectors[i]).0 != (#[trigger] vectors[j]).0,
    ensures
        ({
            let t = store::applied_all(s, as_vectors(vectors));
            &&& t.graph == s.graph
            &&& t.index.ids == vectors.map_values(|x: (NodeId, Seq<F32Bits>)| x.0)
            &&& forall|i: int|
                0 <= i < vectors.len() ==> t.index.vecs.contains_key((#[trigger] vectors[i]).0)
                    && t.index.vecs[vectors[i].0] == vectors[i].1
            &&& forall|id: NodeId| #[trigger]
                t.index.vecs.contains_key(id) ==> exists|i: int|
                    0 <= i < vectors.len() && vectors[i].0 == id
        }),
    decreases vectors.len(),
{
    let t = store::applied_all(s, as_vectors(vectors));
    if vectors.len() == 0 {
        assert(as_vectors(vectors) =~= Seq::empty());
        assert(vectors.map_values(|x: (NodeId, Seq<F32Bits>)| x.0) =~= Seq::empty());
    } else {
        let init = vectors.drop_last();
        let last = vectors.last();
        assert forall|i: int, j: int| 0 <= i < j < init.len() implies (#[trigger] init[i]).0 != (
        #[trigger] init[j]).0 by {
            assert(init[i] == vectors[i] && init[j] == vectors[j]);
        }
        lemma_load_vectors(s, init);
        assert(as_vectors(vectors).drop_last() =~= as_vectors(init));
        assert(as_vectors(vectors).last() == WalRecordV::Vector(last.0, last.1));
        let p = store::applied_all(s, as_vectors(init));
        assert(!p.index.vecs.contains_key(last.0)) by {
            if p.index.vecs.contains_key(last.0) {
                let i = choose|i: int| 0 <= i < init.len() && init[i].0 == last.0;
                assert(vectors[i].0 == vectors[vectors.len() - 1].0);
            }
        }
        assert(t.index.ids =~= vectors.map_values(|x: (NodeId, Seq<F32Bits>)| x.0));
        assert forall|i: int| 0 <= i < vectors.len() implies t.index.vecs.contains_key(
            (#[trigger] vectors[i]).0,
        ) && t.index.vecs[vectors[i].0] == vectors[i].1 by {
            if i < init.len() {
                assert(init[i] == vectors[i]);
                assert(vectors[i].0 != vectors[vectors.len() - 1].0);
            }
        }
        assert forall|id: NodeId| #[trigger] t.index.vecs.contains_key(id) implies exists|i: int|
            0 <= i < vectors.len() && vectors[i].0 == id by {
            if id == last.0 {
                assert(vectors[vectors.len() - 1].0 == id);
            } else {
                assert(p.index.vecs.contains_key(id));
                let i = choose|i: int| 0 <= i < init.len() && init[i].0 == id;
                assert(vectors[i].0 == id);
            }
        }
    }
}

proof fn lemma_applied_concat(s: StoreV, a: Seq<WalRecordV>, b: Seq<WalRecordV>)
    ensures
        store::applied_all(s, a + b) == store::applied_all(store::applied_all(s, a), b),
    decreases b.len(),
{
    if b.len() == 0 {
        assert(a + b =~= a);
    } else {
        lemma_applied_concat(s, a, b.drop_last());
        assert((a + b).drop_last() =~= a + b.drop_last());
        assert((a + b).last() == b.last());
    }
}

/// What was saved is what opening gives back: all nodes and vectors as they were, and the
/// edges in the order in which they were saved.
pub proof fn opening_gives_back_what_was_saved(
    s: StoreV,
    nodes: Seq<NodeV>,
    edges: Seq<EdgeV>,
    vectors: Seq<(NodeId, Seq<F32Bits>)>,
)
    requires
        holds_nodes(nodes, s.graph),
        fits_edges(edges, s.graph.nodes),
        holds_vectors(vectors, s.index),
    ensures
        ({
            let t = store::applied_all(
                store::empty_store(),
                as_nodes(nodes) + as_edges(edges) + as_vectors(vectors),
            );
            &&& t.graph.nodes == s.graph.nodes
            &&& t.graph.edges == edges
            &&& t.index.vecs == s.index.vecs
        }),
{
    let e = store::empty_store();
    let (a, b, c) = (as_nodes(nodes), as_edges(edges), as_vectors(vectors));
    lemma_applied_concat(e, a + b, c);
    lemma_applied_concat(e, a, b);
    lemma_load_nodes(nodes);
    let s1 = store::applied_all(e, a);
    assert forall|id: NodeId|
        (#[trigger] s1.graph.nodes.dom().contains(id)) == s.graph.nodes.dom().contains(id) && (
        s1.graph.nodes.dom().contains(id) ==> s1.graph.nodes[id] == s.graph.nodes[id]) by {
        if s1.graph.nodes.contains_key(id) {
            let i = choose|i: int| 0 <= i < nodes.len() && nodes[i].id == id;
            assert(s.graph.nodes.contains_key(nodes[i].id));
        }
        if s.graph.nodes.contains_key(id) {
            let i = choose|i: int| 0 <= i < nodes.len() && nodes[i].id == id;
            assert(s1.graph.nodes.contains_key(nodes[i].id));
        }
    }
    assert(s1.graph.nodes =~= s.graph.nodes);
    lemma_load_edges(s1, edges);
    let s2 = store::applied_all(s1, b);
    lemma_load_vectors(s2, vectors);
    let s3 = store::applied_all(s2, c);
    assert forall|id: NodeId|
        (#[trigger] s3.index.vecs.dom().contains(id)) == s.index.vecs.dom().contains(id) && (
        s3.index.vecs.dom().contains(id) ==> s3.index.vecs[id] == s.index.vecs[id]) by {
        if s3.index.vecs.contains_key(id) {
            let i = choose|i: int| 0 <= i < vectors.len() && vectors[i].0 == id;
            assert(s.index.vecs.contains_key(vectors[i].0));
        }
        if s.index.vecs.contains_key(id) {
            let i = choose|i: int| 0 <= i < vectors.len() && vectors[i].0 == id;
            assert(s3.index.vecs.contains_key(vectors[i].0));
        }
    }
    assert(s3.index.vecs =~= s.index.vecs);
}

/// Whether two stores hold the same: the same nodes, the same edges in some order, and the same
/// vectors.
pub open spec fn same_contents(t: StoreV, s: StoreV) -> bool {
    &&& t.graph.nodes == s.graph.nodes
    &&& t.index.vecs == s.index.vecs
    &&& forall|e: EdgeV| #[trigger] t.graph.edges.contains(e) <==> s.graph.edges.contains(e)
}

proof fn lemma_key_contained(edges: Seq<EdgeV>, e: EdgeV)
    ensures
        graph::has_key(edges, e) <==> exists|x: EdgeV| #[trigger]
            edges.contains(x) && graph::same_key(x, e),
{
    if graph::has_key(edges, e) {
        let i = choose|i: int| 0 <= i < edges.len() && graph::same_key(#[trigger] edges[i], e);
        assert(edges.contains(edges[i]));
    }
    if exists|x: EdgeV| #[trigger] edges.contains(x) && graph::same_key(x, e) {
        let x = choose|x: EdgeV| #[trigger] edges.contains(x) && graph::same_key(x, e);
        let i = choose|i: int| 0 <= i < edges.len() && edges[i] == x;
        assert(graph::same_key(edges[i], e));
    }
}

proof fn lemma_contains_push(edges: Seq<EdgeV>, e: EdgeV, x: EdgeV)
    ensures
        edges.push(e).contains(x) <==> edges.contains(x) || x == e,
{
    if edges.contains(x) {
        let i = choose|i: int| 0 <= i < edges.len() && edges[i] == x;
        assert(edges.push(e)[i] == x);
    }
    assert(edges.push(e)[edges.len() as int] == e);
    if edges.push(e).contains(x) && x != e {
        let i = choose|i: int| 0 <= i < edges.push(e).len() && edges.push(e)[i] == x;
        assert(edges[i] == x);
    }
}

/// Records make the same of stores that hold the same.
pub proof fn records_keep_same_contents(t: StoreV, s: StoreV, recs: Seq<WalRecordV>)
    requires
        same_contents(t, s),
    ensures
        same_contents(store::applied_all(t, recs), store::applied_all(s, recs)),
    decreases recs.len(),
{
    if recs.len() != 0 {
        records_keep_same_contents(t, s, recs.drop_last());
        let a = store::applied_all(t, recs.drop_last());
        let b = store::applied_all(s, recs.drop_last());
        match recs.last() {
            WalRecordV::Edge(e) => {
                lemma_key_contained(a.graph.edges, e);
                lemma_key_contained(b.graph.edges, e);
                if graph::has_key(a.graph.edges, e) {
                    let x = choose|x: EdgeV| #[trigger]
                        a.graph.edges.contains(x) && graph::same_key(x, e);
                    assert(b.graph.edges.contains(x));
                }
                if graph::has_key(b.graph.edges, e) {
                    let x = choose|x: EdgeV| #[trigger]
                        b.graph.edges.contains(x) && graph::same_key(x, e);
                    assert(a.graph.edges.contains(x));
                }
                let (c, d) = (
                    graph::with_edge(a.graph, e).edges,
                    graph::with_edge(b.graph, e).edges,
                );
                assert forall|x: EdgeV| #[trigger] c.contains(x) <==> d.contains(x) by {
                    lemma_contains_push(a.graph.edges, e, x);
                    lemma_contains_push(b.graph.edges, e, x);
                }
            },
            _ => {},
        }
    }
}

/// Reopening gives back the store, whatever was logged since it was saved: the nodes, edges and
/// vectors that were saved, in any order, and the log on top of them give the nodes, the edges
/// and the vectors that the store held.
pub proof fn reopening_gives_back_the_store(
    base: StoreV,
    nodes: Seq<NodeV>,
    edges: Seq<EdgeV>,
    vectors: Seq<(NodeId, Seq<F32Bits>)>,
    log: Seq<WalRecordV>,
)
    requires
        holds_nodes(nodes, base.graph),
        fits_edges(edges, base.graph.nodes),
        forall|e: EdgeV| #[trigger] edges.contains(e) <==> base.graph.edges.contains(e),
        holds_vectors(vectors, base.index),
    ensures
        ({
            let t = store::applied_all(
                store::empty_store(),
                as_nodes(nodes) + as_edges(edges) + as_vectors(vectors) + log,
            );
            let s = store::applied_all(base, log);
            &&& t.graph.nodes == s.graph.nodes
            &&& t.index.vecs == s.index.vecs
            &&& forall|e: EdgeV| #[trigger]
                t.graph.edges.contains(e) <==> s.graph.edges.contains(e)
        }),
{
    let saved = as_nodes(nodes) + as_edges(edges) + as_vectors(vectors);
    let t = store::applied_all(store::empty_store(), saved);
    opening_gives_back_what_was_saved(base, nodes, edges, vectors);
    assert(same_contents(t, base));
    lemma_applied_concat(store::empty_store(), saved, log);
    records_keep_same_contents(t, base, log);
}

/// A log that is left behind after it was saved is harmless, also where more was logged behind
/// it: what was saved, with the old log and what came after it on top, is the store with what
/// came after it.
pub proof fn leftover_log_is_harmless(
    start: StoreV,
    old_log: Seq<WalRecordV>,
    nodes: Seq<NodeV>,
    edges: Seq<EdgeV>,
    vectors: Seq<(NodeId, Seq<F32Bits>)>,
    new_log: Seq<WalRecordV>,
)
    requires
        records_ordered(start.graph.nodes.dom(), old_log),
        forall|id: NodeId| #[trigger]
            start.graph.nodes.contains_key(id) ==> start.graph.nodes[id].id == id,
        holds_nodes(nodes, store::applied_all(start, old_log).graph),
        fits_edges(edges, store::applied_all(start, old_log).graph.nodes),
        forall|e: EdgeV| #[trigger]
            edges.contains(e) <==> store::applied_all(start, old_log).graph.edges.contains(e),
        holds_vectors(vectors, store::applied_all(start, old_log).index),
    ensures
        ({
            let t = store::applied_all(
                store::empty_store(),
                as_nodes(nodes) + as_edges(edges) + as_vectors(vectors) + (old_log + new_log),
            );
            let s = store::applied_all(store::applied_all(start, old_log), new_log);
            &&& t.graph.nodes == s.graph.nodes
            &&& t.index.vecs == s.index.vecs
            &&& forall|e: EdgeV| #[trigger]
                t.graph.edges.contains(e) <==> s.graph.edges.contains(e)
        }),
{
    let base = store::applied_all(start, old_log);
    replay_is_harmless(start, old_log);
    lemma_applied_concat(base, old_log, new_log);
    reopening_gives_back_the_store(base, nodes, edges, vectors, old_log + new_log);
}

/// Whether a saved store holds the nodes, the edges and the vectors of a store, each once and
/// in any order.
pub open spec fn is_saved(saved: Saved, base: StoreV) -> bool {
    &&& holds_nodes(graph::node_views(saved.nodes@), base.graph)
    &&& fits_edges(graph::edge_views(saved.edges@), base.graph.nodes)
    &&& forall|e: EdgeV| #[trigger]
        graph::edge_views(saved.edges@).contains(e) <==> base.graph.edges.contains(e)
    &&& forall|i: int, j: int|
        0 <= i < j < saved.vectors@.len() ==> (#[trigger] saved.vectors@[i]).0 != (
        #[trigger] saved.vectors@[j]).0
    &&& forall|i: int|
        0 <= i < saved.vectors@.len() ==> base.index.vecs.contains_key(
            (#[trigger] saved.vectors@[i]).0,
        ) && saved.vectors@[i].1@ == store::vector_bytes(base.index.vecs[saved.vectors@[i].0])
    &&& forall|id: NodeId| #[trigger]
        base.index.vecs.contains_key(id) ==> exists|i: int|
            0 <= i < saved.vectors@.len() && saved.vectors@[i].0 == id
}

/// Rebuilding a saved store gives back what it held, with what was logged since: its vectors
/// are whole, and the records that rebuild it give the store that was saved and then took the
/// log.
pub proof fn rebuilding_gives_back_the_store(base: StoreV, saved: Saved)
    requires
        is_saved(saved, base),
    ensures
        store::vectors_whole(saved.vectors@),
        same_contents(
            store::applied_all(store::empty_store(), store::saved_records(saved)),
            store::applied_all(base, store::record_views(saved.log@)),
        ),
{
    let nodes = graph::node_views(saved.nodes@);
    let edges = graph::edge_views(saved.edges@);
    let vectors = saved.vectors@.map_values(
        |x: (NodeId, Vec<u8>)| (x.0, base.index.vecs[x.0]),
    );
    let log = store::record_views(saved.log@);
    assert(store::node_records(saved.nodes@) =~= as_nodes(nodes));
    assert(store::edge_records(saved.edges@) =~= as_edges(edges));
    assert forall|i: int| 0 <= i < vectors.len() implies #[trigger] store::vector_records(
        saved.vectors@,
    )[i] == as_vectors(vectors)[i] by {
        assert(saved.vectors@[i].1@ == store::vector_bytes(
            base.index.vecs[saved.vectors@[i].0],
        ));
        vector_is_read_back(base.index.vecs[saved.vectors@[i].0]);
    }
    assert(store::vector_records(saved.vectors@) =~= as_vectors(vectors));
    assert forall|i: int| 0 <= i < saved.vectors@.len() implies (
    #[trigger] saved.vectors@[i]).1@.len() % 4 == 0 by {
        lemma_vector_bytes(base.index.vecs[saved.vectors@[i].0]);
    }
    assert forall|i: int, j: int| 0 <= i < j < vectors.len() implies (#[trigger] vectors[i]).0 != (
    #[trigger] vectors[j]).0 by {
        assert(saved.vectors@[i].0 != saved.vectors@[j].0);
    }
    assert forall|i: int| 0 <= i < vectors.len() implies base.index.vecs.contains_key(
        (#[trigger] vectors[i]).0,
    ) && base.index.vecs[vectors[i].0] == vectors[i].1 by {
        assert(base.index.vecs.contains_key(saved.vectors@[i].0));
    }
    assert forall|id: NodeId| #[trigger] base.index.vecs.contains_key(id) implies exists|i: int|
        0 <= i < vectors.len() && vectors[i].0 == id by {
        let i = choose|i: int| 0 <= i < saved.vectors@.len() && saved.vectors@[i].0 == id;
        assert(vectors[i].0 == id);
    }
    reopening_gives_back_the_store(base, nodes, edges, vectors, log);
}

// ---------------------------------------------------------------------------
// Ingesting again
// ---------------------------------------------------------------------------

/// Whether two records are about the same node, the same edge, or the vector of the same node.
pub open spec fn same_subject(a: WalRecordV, b: WalRecordV) -> bool {
    match (a, b) {
        (WalRecordV::Node(x), WalRecordV::Node(y)) => x.id == y.id,
        (WalRecordV::Edge(x), WalRecordV::Edge(y)) => graph::same_key(x, y),
        (WalRecordV::Vector(x, _), WalRecordV::Vector(y, _)) => x == y,
        _ => false,
    }
}

/// Whether two lists of records are about the same, one by one.
pub open spec fn same_subjects(a: Seq<WalRecordV>, b: Seq<WalRecordV>) -> bool {
    &&& a.len() == b.len()
    &&& forall|i: int| 0 <= i < a.len() ==> same_subject(#[trigger] a[i], b[i])
}

/// Whether a store has grown by nothing since another: the same nodes and edges in the same
/// order, vectors for the same nodes, and no node first seen later.
pub open spec fn adds_nothing(before: StoreV, after: StoreV) -> bool {
    &&& after.graph.order == before.graph.order
    &&& after.graph.edges == before.graph.edges
    &&& after.index.ids == before.index.ids
    &&& after.graph.nodes.dom() == before.graph.nodes.dom()
    &&& forall|id: NodeId| #[trigger]
        before.graph.nodes.contains_key(id) ==> after.graph.nodes[id].first_seen_ms
            <= before.graph.nodes[id].first_seen_ms
}

proof fn lemma_again_adds_nothing(s: StoreV, a: Seq<WalRecordV>, b: Seq<WalRecordV>, n: nat)
    requires
        records_ordered(s.graph.nodes.dom(), a),
        same_subjects(a, b),
        n <= b.len(),
    ensures
        adds_nothing(
            store::applied_all(s, a),
            store::applied_all(store::applied_all(s, a), b.take(n as int)),
        ),
        store::applied_all(store::applied_all(s, a), b.take(n as int)).index.vecs.dom()
            == store::applied_all(s, a).index.vecs.dom(),
    decreases n,
{
    let done = store::applied_all(s, a);
    ordered_records_all_arrive(s, a);
    if n == 0 {
        assert(b.take(0) =~= Seq::empty());
    } else {
        lemma_again_adds_nothing(s, a, b, (n - 1) as nat);
        assert(b.take(n as int).drop_last() =~= b.take(n - 1));
        let before = store::applied_all(done, b.take(n - 1));
        let again = store::applied_all(done, b.take(n as int));
        assert(same_subject(a[n - 1], b[n - 1]));
        match (a[n - 1], b[n - 1]) {
            (WalRecordV::Node(x), WalRecordV::Node(y)) => {
                assert(done.graph.nodes.contains_key(x.id));
                assert(before.graph.nodes.dom().contains(y.id));
                assert(again.graph.nodes.dom() =~= done.graph.nodes.dom());
                assert forall|id: NodeId| #[trigger]
                    done.graph.nodes.contains_key(id) implies again.graph.nodes[id].first_seen_ms
                    <= done.graph.nodes[id].first_seen_ms by {
                    assert(before.graph.nodes[id].first_seen_ms
                        <= done.graph.nodes[id].first_seen_ms);
                }
            },
            (WalRecordV::Edge(x), WalRecordV::Edge(y)) => {
                assert(graph::has_key(done.graph.edges, x));
                let i = choose|i: int|
                    0 <= i < done.graph.edges.len() && graph::same_key(
                        #[trigger] done.graph.edges[i],
                        x,
                    );
                assert(graph::same_key(before.graph.edges[i], y));
                assert(graph::has_key(before.graph.edges, y));
            },
            (WalRecordV::Vector(x, _), WalRecordV::Vector(y, _)) => {
                lemma_vector_arrives(s, a, n - 1);
                assert(before.index.vecs.dom().contains(y));
                assert(again.index.vecs.dom() =~= done.index.vecs.dom());
            },
            _ => {},
        }
    }
}

/// Writing records about the same again adds nothing: no node, no edge, no vector, and no node
/// is first seen later.
pub proof fn writing_again_adds_nothing(s: StoreV, a: Seq<WalRecordV>, b: Seq<WalRecordV>)
    requires
        records_ordered(s.graph.nodes.dom(), a),
        same_subjects(a, b),
    ensures
        adds_nothing(
            store::applied_all(s, a),
            store::applied_all(store::applied_all(s, a), b),
        ),
{
    lemma_again_adds_nothing(s, a, b, b.len());
    assert(b.take(b.len() as int) =~= b);
}

proof fn lemma_same_plans(
    p: Seq<MutationV>,
    q: Seq<MutationV>,
    v: Seq<Seq<F32Bits>>,
    w: Seq<Seq<F32Bits>>,
)
    requires
        records::subjects(p) == records::subjects(q),
    ensures
        same_subjects(store::resolved(p, v), store::resolved(q, w)),
{
    assert(records::subjects(p).len() == p.len());
    assert(records::subjects(q).len() == q.len());
    let (a, b) = (store::resolved(p, v), store::resolved(q, w));
    assert forall|i: int| 0 <= i < a.len() implies same_subject(#[trigger] a[i], b[i]) by {
        assert(records::subjects(p)[i] == records::subject(p[i]));
        assert(records::subjects(q)[i] == records::subject(q[i]));
    }
}

proof fn lemma_records_ordered_wider(known: Set<NodeId>, wider: Set<NodeId>, recs: Seq<WalRecordV>)
    requires
        records_ordered(known, recs),
        known.subset_of(wider),
    ensures
        records_ordered(wider, recs),
{
    assert forall|i: int| 0 <= i < recs.len() implies ((#[trigger] recs[i]) matches WalRecordV::Edge(e)
        ==> wider.union(record_ids(recs.take(i))).contains(e.from) && wider.union(
        record_ids(recs.take(i)),
    ).contains(e.to)) by {
        if let WalRecordV::Edge(e) = recs[i] {
            assert(known.union(record_ids(recs.take(i))).contains(e.from));
        }
    }
}

/// Ingesting a session again, at whatever time, adds nothing to the store.
pub proof fn ingesting_again_adds_nothing(
    s: StoreV,
    c: SessionContext,
    later: i64,
    cands: Seq<CandidateV>,
    v: Seq<Seq<F32Bits>>,
    w: Seq<Seq<F32Bits>>,
)
    ensures
        ({
            let once = store::applied_all(s, store::resolved(records::session_plan(c, cands), v));
            let again = records::session_plan(SessionContext { now: later, ..c }, cands);
            adds_nothing(once, store::applied_all(once, store::resolved(again, w)))
        }),
{
    let plan = records::session_plan(c, cands);
    let again = records::session_plan(SessionContext { now: later, ..c }, cands);
    session_plan_is_ordered(c, cands);
    resolving_keeps_order(Set::empty(), plan, v);
    lemma_records_ordered_wider(Set::empty(), s.graph.nodes.dom(), store::resolved(plan, v));
    records::ingesting_again_is_the_same(c, later, cands);
    lemma_same_plans(plan, again, v, w);
    writing_again_adds_nothing(s, store::resolved(plan, v), store::resolved(again, w));
}

/// Scanning a repository again, at whatever time, adds nothing to the store.
pub proof fn scanning_again_adds_nothing(
    s: StoreV,
    c: RepoContext,
    later: i64,
    v: Seq<Seq<F32Bits>>,
    w: Seq<Seq<F32Bits>>,
)
    ensures
        ({
            let once = store::applied_all(s, store::resolved(records::repo_plan(c), v));
            let again = records::repo_plan(RepoContext { now: later, ..c });
            adds_nothing(once, store::applied_all(once, store::resolved(again, w)))
        }),
{
    let plan = records::repo_plan(c);
    let again = records::repo_plan(RepoContext { now: later, ..c });
    repo_plan_is_ordered(c);
    resolving_keeps_order(Set::empty(), plan, v);
    lemma_records_ordered_wider(Set::empty(), s.graph.nodes.dom(), store::resolved(plan, v));
    records::scanning_again_is_the_same(c, later);
    lemma_same_plans(plan, again, v, w);
    writing_again_adds_nothing(s, store::resolved(plan, v), store::resolved(again, w));
}

/// Noting the same text under the same topic again, at whatever time, is the same node and adds
/// nothing to the store.
pub proof fn noting_again_adds_nothing(
    s: StoreV,
    topic: Option<Seq<char>>,
    note: Seq<char>,
    now: i64,
    later: i64,
    v: Seq<Seq<F32Bits>>,
    w: Seq<Seq<F32Bits>>,
)
    requires
        records::note_plan(topic, note, now) is Some,
    ensures
        ({
            let once = store::applied_all(
                s,
                store::resolved(records::note_plan(topic, note, now)->0, v),
            );
            let again = records::note_plan(topic, note, later);
            again is Some && adds_nothing(
                once,
                store::applied_all(once, store::resolved(again->0, w)),
            )
        }),
{
    let plan = records::note_plan(topic, note, now)->0;
    let again = records::note_plan(topic, note, later)->0;
    assert(records::subjects(plan) =~= records::subjects(again));
    lemma_same_plans(plan, again, v, w);
    writing_again_adds_nothing(s, store::resolved(plan, v), store::resolved(again, w));
}

} // verus!
