use lore::api::{graph_slice, neighbors, node_detail, timeline};
use lore::ask::{kind_weight, snippet, Phase, Recall, RecallResult, Task};
use lore::board::Why;
use lore::bm25::{collect, Stats};
use lore::coderepo::RepoScan;
use lore::decision::extract;
use lore::embed::HashEmbedder;
use lore::git::{CommitMeta, History};
use lore::ingest::claude_code::ClaudeCode;
use lore::json::Json;
use lore::mcp::{note_text, recall_decision, related, tools};
use lore::model::{
    node_id, AgentKind, CanonicalSession, Edge, EdgeKind, MessageKind, Node, NodeId, NodeKind,
    Provenance, Turn,
};
use lore::records::{git_prefix_of, plan_note, plan_repo, plan_session, Mutation};
use lore::store::{
    bytes_to_vec, edge_key, embed_texts, resolve, vec_to_bytes, EmbedderMeta, OpenError, Saved, Store,
    WalRecord,
};
use lore::text::{chars_of, tokenize};
use lore::wal::{frame_batch, replay};

fn embed(text: &str) -> Vec<f32> {
    let mut v: Vec<f32> = HashEmbedder.counts(text).iter().map(|c| *c as f32).collect();
    let norm = v.iter().map(|x| x * x).sum::<f32>().sqrt();
    if norm > 0.0 {
        for x in v.iter_mut() {
            *x /= norm;
        }
    }
    v
}

fn bits(v: &[f32]) -> Vec<u32> {
    v.iter().map(|x| x.to_bits()).collect()
}

fn floats(v: &[u32]) -> Vec<f32> {
    v.iter().map(|x| f32::from_bits(*x)).collect()
}

fn dot(a: &[f32], b: &[f32]) -> f32 {
    a.iter().zip(b).map(|(x, y)| x * y).sum()
}

fn put(store: &mut Store, plan: Vec<Mutation>) {
    let vectors: Vec<Vec<u32>> = embed_texts(&plan).iter().map(|t| bits(&embed(t))).collect();
    store.commit(resolve(plan, &vectors));
}

fn ingest(store: &mut Store, s: &CanonicalSession) {
    let canonical: Vec<Vec<String>> = s.turns.iter().map(|t| t.touched_files.clone()).collect();
    put(store, plan_session(s, &extract(&s.turns), 5000, None, &canonical));
}

fn centrality(degree: Option<usize>) -> f32 {
    match degree {
        Some(d) => (d as f32).ln_1p() * 0.03,
        None => 0.0,
    }
}

fn score(t: &Task, now: i64) -> f32 {
    let age = ((now - t.updated_ms).max(0) as f64) / 86_400_000.0;
    let rec = 0.5f64.powf(age / 30.0) as f32;
    let basis = f32::from_bits(t.basis);
    let raw = match t.why {
        _ if t.hop => 0.35 * basis + 0.15 * rec,
        Why::Semantic => 0.7 * basis + 0.15 * rec,
        _ => 0.6 + 0.1 * rec,
    };
    raw * f32::from_bits(t.weight) + centrality(t.degree)
}

fn doc_scores(s: &Stats) -> Vec<f32> {
    let n = s.n_docs as f32;
    let avgdl = (s.total_len as f32 / n).max(1.0);
    s.docs
        .iter()
        .map(|d| {
            let mut x = 0.0f32;
            for (q, &tf) in d.tf.iter().enumerate() {
                if tf == 0 {
                    continue;
                }
                let df = s.df[q] as f32;
                let idf = (1.0 + (n - df + 0.5) / (df + 0.5)).ln();
                let tf = tf as f32;
                x += idf * (tf * 2.2) / (tf + 1.2 * (1.0 - 0.75 + 0.75 * d.len as f32 / avgdl));
            }
            x * f32::from_bits(d.weight) + centrality(d.degree)
        })
        .collect()
}

fn recall(store: &Store, query: &str, k: usize) -> RecallResult {
    let q = embed(query);
    let mut r = Recall::begin(&store.graph, &store.index, query, k);
    while r.phase() != Phase::Done {
        let numbers: Vec<f32> = match r.phase() {
            Phase::Similarities => {
                store.index.entries().iter().map(|e| dot(&q, &floats(&e.vec))).collect()
            }
            Phase::Documents => doc_scores(r.stats()),
            _ => r.tasks().iter().map(|t| score(t, 5000)).collect(),
        };
        r = r.advance(&store.graph, &store.index, &bits(&numbers));
    }
    r.into_result().unwrap()
}

fn sess(id: &str, turns: &[(MessageKind, &str)]) -> CanonicalSession {
    CanonicalSession {
        native_session_id: id.into(),
        agent: AgentKind::ClaudeCode,
        repo_root: None,
        commit: None,
        started_at_ms: Some(1000),
        source_path: None,
        connector_version: None,
        turns: turns
            .iter()
            .enumerate()
            .map(|(i, (k, t))| Turn {
                index: i,
                kind: *k,
                text: t.to_string(),
                ts_ms: Some(1000 + i as i64),
                touched_files: vec![],
                raw: Json::Null,
            })
            .collect(),
    }
}

#[test]
fn bm25_scores_the_term_bearing_doc() {
    let mut store = Store::new();
    ingest(
        &mut store,
        &sess(
            "s1",
            &[
                (MessageKind::User, "how do we expose the gateway"),
                (MessageKind::Assistant, "we configured kubernetes ingress for the gateway"),
                (MessageKind::Assistant, "and also a lot of common filler words here"),
            ],
        ),
    );
    let stats = collect(&store.graph, tokenize(&chars_of("kubernetes")));
    let scored = doc_scores(&stats);
    assert!(!scored.is_empty(), "the kubernetes turn is scored");
    let mut top = 0;
    for i in 0..scored.len() {
        if scored[i] > scored[top] {
            top = i;
        }
    }
    let body = store.graph.get(stats.docs[top].id).unwrap().body.clone();
    assert!(body.contains("kubernetes"), "top BM25 hit carries the rare term, got: {body}");
}

#[test]
fn lexical_statistics_are_counted() {
    let mut store = Store::new();
    let a = Node::new(NodeKind::Turn, "a", "redb redb", 1).with_body("and sled");
    let b = Node::new(NodeKind::Symbol, "b", "sled", 1);
    let c = Node::new(NodeKind::File, "c", "nothing here", 1);
    let (ai, bi) = (a.id, b.id);
    store.graph.upsert_node(a);
    store.graph.upsert_node(b);
    store.graph.upsert_node(c);
    let s = collect(&store.graph, tokenize(&chars_of("sled redb sled")));
    assert_eq!(s.n_docs, 3);
    assert_eq!(s.total_len, 4 + 1 + 2);
    assert_eq!(s.df, vec![1, 2], "terms in ascending order: redb, sled");
    assert_eq!(s.docs.len(), 2);
    assert_eq!((s.docs[0].id, s.docs[0].len), (ai, 4));
    assert_eq!(s.docs[0].tf, vec![2, 1]);
    assert_eq!((s.docs[1].id, s.docs[1].len), (bi, 1));
    assert_eq!(s.docs[1].tf, vec![0, 1]);
    let same = collect(&store.graph, tokenize(&chars_of("redb sled redb")));
    assert_eq!(same.df, s.df, "neither repetition nor order counts");
    assert!(same.docs.iter().zip(&s.docs).all(|(x, y)| x.id == y.id && x.tf == y.tf));
    assert!(collect(&store.graph, vec![]).docs.is_empty());
    let none = collect(&Store::new().graph, tokenize(&chars_of("x")));
    assert_eq!((none.n_docs, none.docs.len()), (1, 0));
}

#[test]
fn supersession_redirects_to_the_newer_decision() {
    let mut store = Store::new();
    ingest(
        &mut store,
        &sess(
            "s1",
            &[
                (MessageKind::Assistant, "Let's use sled for the durable store."),
                (MessageKind::Assistant, "Switch to redb for the durable store instead of sled."),
            ],
        ),
    );
    let decision = |pred: &dyn Fn(&str) -> bool| -> NodeId {
        store
            .graph
            .ids()
            .iter()
            .map(|id| store.graph.get(*id).unwrap())
            .find(|n| n.kind == NodeKind::Decision && pred(&n.body.to_lowercase()))
            .map(|n| n.id)
            .unwrap()
    };
    let redb = decision(&|b| b.contains("redb"));
    let sled = decision(&|b| b.contains("sled") && !b.contains("redb"));
    store.graph.upsert_edge(Edge::new(redb, sled, EdgeKind::Supersedes));

    let res = recall(&store, "durable store", 10);
    let ids: Vec<NodeId> = res.results.iter().filter_map(|e| e.id.parse().ok()).collect();
    assert!(ids.contains(&redb), "the current (superseding) decision surfaces");
    assert!(!ids.contains(&sled), "the superseded decision is filtered out");
    assert!((1..ids.len()).all(|i| !ids[..i].contains(&ids[i])), "no node twice");
    assert!(!res.degraded);
    assert_eq!(res.query, "durable store");
    let scores: Vec<f32> = res.results.iter().map(|e| f32::from_bits(e.score)).collect();
    assert!(scores.windows(2).all(|w| w[0] >= w[1]), "best first");
    assert!(res.results.iter().all(|e| ["semantic", "lexical", "recency"].contains(&e.why)));
}

#[test]
fn value_nodes_outweigh_code_atoms() {
    let w = |k: NodeKind| f32::from_bits(kind_weight(k));
    assert!(w(NodeKind::Decision) > w(NodeKind::Symbol));
    assert!(w(NodeKind::Turn) > w(NodeKind::File));
    assert_eq!(w(NodeKind::Decision), w(NodeKind::Implementation));
    assert!(w(NodeKind::Symbol) > 0.0);
    assert_eq!(w(NodeKind::Decision), 1.0);
    assert_eq!(w(NodeKind::DesignDoc), 0.9);
    assert_eq!(w(NodeKind::Turn), 0.85);
    assert_eq!(w(NodeKind::Concept), 0.8);
    assert_eq!(w(NodeKind::Session), 0.65);
    assert_eq!(w(NodeKind::Pattern), 0.6);
    assert_eq!(w(NodeKind::Commit), 0.5);
    assert_eq!(w(NodeKind::Person), 0.4);
    assert_eq!(w(NodeKind::Symbol), 0.3);
}

const FIXTURE: &str = "pub struct DurableStore {\n    pub path: String,\n}\n\npub trait GraphStore {\n    fn upsert(&mut self);\n}\n\npub enum NodeKind {\n    Decision,\n    File,\n}\n\npub fn open_store(path: &str) -> DurableStore {\n    DurableStore { path: path.to_string() }\n}\n";

fn reopen(store: &Store, log: Vec<WalRecord>) -> Store {
    let nodes: Vec<Node> =
        store.graph.ids().iter().map(|id| store.graph.get(*id).unwrap().clone()).collect();
    let edges: Vec<Edge> = store.graph.edges().iter().map(|e| e.clone()).collect();
    let vectors: Vec<(NodeId, Vec<u8>)> =
        store.index.entries().iter().map(|e| (e.id, vec_to_bytes(&e.vec))).collect();
    let saved = Saved { nodes, edges, vectors, log, embedder: Some(hash_meta()) };
    match Store::rebuild(saved, &hash_meta()) {
        Ok(s) => s,
        Err(e) => panic!("{e:?}"),
    }
}

fn hash_meta() -> EmbedderMeta {
    EmbedderMeta { id: HashEmbedder.id(), dim: HashEmbedder.dim() }
}

#[test]
fn index_then_recall_the_decision() {
    let transcript = concat_lines(&[
        r#"{"type":"user","timestamp":"2026-05-02T14:11:00Z","cwd":"/repo","message":{"role":"user","content":"what storage engine should we choose for the durable store"}}"#,
        r#"{"type":"assistant","timestamp":"2026-05-02T14:11:05Z","message":{"role":"assistant","content":[{"type":"text","text":"Let's use redb for the durable store instead of sled. It is pure Rust."},{"type":"tool_use","name":"Edit","input":{"file_path":"src/lib.rs"}}]}}"#,
        r#"{"type":"queue-operation","foo":1}"#,
        r#"{"type":"user","message":{"role":"user","content":"sounds good, go ahead"}}"#,
    ]);
    let mut store = Store::new();
    let sess = ClaudeCode.read_session(&transcript, Some("demo"), "demo.jsonl");
    assert!(sess.turns.len() >= 4, "user/assistant/unknown/user turns parsed");
    ingest(&mut store, &sess);
    let mut scan = RepoScan::new("repo_fixture");
    scan.visit("src/lib.rs", Some("lib.rs"), Some("rs"), Some(FIXTURE));
    put(&mut store, plan_repo(&scan.finish(), "/repo", None, "", 5000));

    assert!(store.graph.node_count() > 6, "got {}", store.graph.node_count());
    let res = recall(&store, "what storage engine did we choose", 10);
    assert!(!res.results.is_empty());
    let blob = res
        .results
        .iter()
        .map(|e| format!("{} {}", e.label, e.snippet))
        .collect::<Vec<_>>()
        .join(" ")
        .to_lowercase();
    assert!(blob.contains("redb"), "recall should surface the redb decision; got: {blob}");

    let reloaded = reopen(&store, vec![]);
    assert_eq!(reloaded.graph.node_count(), store.graph.node_count());
    assert!(!reloaded.index.is_empty());
}

fn concat_lines(lines: &[&str]) -> String {
    let mut out = String::new();
    for l in lines {
        out.push_str(l);
        out.push('\n');
    }
    out
}

#[test]
fn names_of_code_atoms_are_found_exactly() {
    let mut store = Store::new();
    let mut scan = RepoScan::new("demo");
    scan.visit("src/billing.rs", Some("billing.rs"), Some("rs"), Some("pub fn create_invoice() {}\n"));
    put(&mut store, plan_repo(&scan.finish(), "/repo", None, "", 5000));
    let res = recall(&store, "create_invoice", 5);
    assert!(!res.degraded);
    assert!(res.results.iter().any(|e| e.kind == "Symbol" && e.label == "create_invoice" && e.why == "lexical"));
}

#[test]
fn no_index_means_degraded() {
    let mut store = Store::new();
    store.graph.upsert_node(
        Node::new(NodeKind::Turn, "t", "about redb", 10).with_body("redb is the store").with_summary("redb."),
    );
    let res = recall(&store, "redb", 5);
    assert!(res.degraded);
    assert_eq!(res.results.len(), 1);
    assert_eq!(res.results[0].why, "lexical");
    assert_eq!(res.results[0].snippet, "redb.");
    assert_eq!(res.results[0].kind, "Turn");
    assert!(recall(&store, "nothing", 5).results.is_empty());
    assert!(recall(&store, "", 5).results.is_empty());
    assert!(recall(&store, "redb", 0).results.is_empty());
}

#[test]
fn neighbours_of_a_seed_come_along() {
    let mut store = Store::new();
    let question = Node::new(NodeKind::Turn, "q", "question", 10).with_body("which engine");
    let answer = Node::new(NodeKind::File, "a", "zzz", 10);
    let (qi, ai) = (question.id, answer.id);
    store.apply(WalRecord::Node(question));
    store.apply(WalRecord::Node(answer));
    store.apply(WalRecord::Edge(Edge::new(qi, ai, EdgeKind::Touches)));
    store.apply(WalRecord::Vector(qi, bits(&embed("which engine"))));
    let res = recall(&store, "which engine", 5);
    assert_eq!(res.results.len(), 2);
    assert_eq!(res.results[0].id, qi.to_string());
    assert_eq!(res.results[1].id, ai.to_string());
    assert_eq!(res.results[1].why, "semantic");
    assert_eq!(res.results[1].snippet, "zzz");
}

#[test]
fn snippets_are_clipped() {
    assert_eq!(snippet("abc", 3), "abc");
    assert_eq!(snippet("abcd", 3), "abc…");
}

#[test]
fn vec_codec_roundtrips_and_rejects_legacy() {
    let v = vec![0.0f32, 1.5, -2.25, f32::MIN_POSITIVE, 3.14159];
    let bytes = vec_to_bytes(&bits(&v));
    assert_eq!(bytes.len(), v.len() * 4);
    assert_eq!(&bytes[4..8], &1.5f32.to_le_bytes());
    assert_eq!(floats(&bytes_to_vec(&bytes).unwrap()), v);
    assert!(bytes_to_vec(b"[0.0,1.5]").is_none());
}

fn demo_turn(i: usize, k: MessageKind, text: &str, files: &[&str]) -> Turn {
    Turn {
        index: i,
        kind: k,
        text: text.to_string(),
        ts_ms: Some(1000 + i as i64),
        touched_files: files.iter().map(|s| s.to_string()).collect(),
        raw: Json::Null,
    }
}

fn demo_session() -> CanonicalSession {
    CanonicalSession {
        native_session_id: "s-123".into(),
        agent: AgentKind::ClaudeCode,
        repo_root: None,
        commit: Some("abc123".into()),
        started_at_ms: Some(1000),
        source_path: Some("/x/s-123.jsonl".into()),
        connector_version: Some("2.1.195".into()),
        turns: vec![
            demo_turn(0, MessageKind::User, "what store should we use", &[]),
            demo_turn(1, MessageKind::Assistant, "Let's use redb for the durable store.", &["src/store.rs"]),
        ],
    }
}

fn demo_records() -> Vec<WalRecord> {
    let s = demo_session();
    let canonical: Vec<Vec<String>> = s.turns.iter().map(|t| t.touched_files.clone()).collect();
    let plan = plan_session(&s, &extract(&s.turns), 5000, None, &canonical);
    let vectors: Vec<Vec<u32>> = embed_texts(&plan).iter().map(|t| bits(&embed(t))).collect();
    resolve(plan, &vectors)
}

#[test]
fn checkpoint_then_reopen_from_redb() {
    let mut store = Store::new();
    store.commit(demo_records());
    let count = store.graph.node_count();
    assert!(count >= 5);
    let reopened = reopen(&store, vec![]);
    assert_eq!(reopened.graph.node_count(), count, "loads what was saved");
    assert_eq!(reopened.graph.edge_count(), store.graph.edge_count());
    assert!(!reopened.index.is_empty());
}

#[test]
fn wal_recovers_ingest_without_checkpoint() {
    let mut store = Store::new();
    store.commit(demo_records());
    let recovered = reopen(&Store::new(), demo_records());
    assert_eq!(recovered.graph.node_count(), store.graph.node_count(), "WAL replay recovers everything");
    let q = embed("durable store redb");
    let sims: Vec<u32> = recovered
        .index
        .entries()
        .iter()
        .map(|e| dot(&q, &floats(&e.vec)).to_bits())
        .collect();
    assert!(!recovered.index.search(&sims, 3).is_empty(), "embeddings recovered too");
    let twice = reopen(&store, demo_records());
    assert_eq!(twice.graph.node_count(), store.graph.node_count(), "replay after a checkpoint is harmless");
    assert_eq!(twice.graph.edge_count(), store.graph.edge_count());
    assert_eq!(twice.index.len(), store.index.len());
}

#[test]
fn a_log_on_top_of_a_save_is_recovered() {
    let mut base = Store::new();
    base.commit(demo_records());
    let (id, plan) = plan_note(Some("t"), "later note", 9000).unwrap();
    let vectors: Vec<Vec<u32>> = embed_texts(&plan).iter().map(|t| bits(&embed(t))).collect();
    let log = |extra: bool| {
        let (_, plan) = plan_note(Some("t"), "later note", 9000).unwrap();
        let mut recs = if extra { demo_records() } else { vec![] };
        recs.extend(resolve(plan, &vectors));
        recs
    };
    for left_behind in [false, true] {
        let opened = reopen(&base, log(left_behind));
        let mut live = reopen(&base, vec![]);
        live.commit(log(false));
        assert_eq!(opened.graph.node_count(), live.graph.node_count());
        assert_eq!(opened.graph.edge_count(), live.graph.edge_count());
        assert_eq!(opened.index.len(), live.index.len());
        assert_eq!(opened.graph.get(id).unwrap().body, "later note");
    }
}

#[test]
fn torn_wal_tail_is_ignored() {
    let payloads: Vec<Vec<u8>> = vec![b"one".to_vec(), b"".to_vec(), b"three".to_vec()];
    let mut log = frame_batch(&payloads);
    assert_eq!(&log[..4], &3u32.to_le_bytes());
    assert_eq!(&log[4..8], &crc32fast::hash(b"one").to_le_bytes());
    assert_eq!(replay(&log), payloads);
    let whole = log.len();
    log.extend_from_slice(&999u32.to_le_bytes());
    log.extend_from_slice(&0u32.to_le_bytes());
    log.extend_from_slice(b"partial");
    assert_eq!(replay(&log), payloads, "the torn tail is dropped");
    log.truncate(whole);
    log[8] ^= 1;
    assert!(replay(&log).is_empty(), "a corrupt frame ends the replay");
    assert!(replay(&[]).is_empty());
    for n in 0..whole {
        assert!(replay(&frame_batch(&payloads)[..n]).len() < 3);
    }
}

#[test]
fn a_store_opens_only_for_its_embedder() {
    let saved = |embedder: Option<EmbedderMeta>, blob: Vec<u8>| Saved {
        nodes: vec![],
        edges: vec![],
        vectors: vec![(1, blob)],
        log: vec![],
        embedder,
    };
    let other = EmbedderMeta { id: "static:x:2:00".to_string(), dim: 2 };
    let r = Store::rebuild(saved(Some(other), vec![0; 8]), &hash_meta());
    assert!(r.err() == Some(OpenError::EmbedderMismatch));
    let r = Store::rebuild(saved(Some(hash_meta()), vec![0; 9]), &hash_meta());
    assert!(r.err() == Some(OpenError::BadVector(9)));
    assert!(Store::rebuild(saved(None, vec![0; 8]), &hash_meta()).is_ok());
}

#[test]
fn edge_keys_are_content_addressed() {
    let e = Edge::new(1, 2, EdgeKind::Contains);
    let mut h = blake3::Hasher::new();
    h.update(&1u128.to_le_bytes());
    h.update(&2u128.to_le_bytes());
    h.update(b"contains");
    let mut a = [0u8; 16];
    a.copy_from_slice(&h.finalize().as_bytes()[..16]);
    assert_eq!(edge_key(&e), u128::from_le_bytes(a));
    assert_ne!(edge_key(&e), edge_key(&Edge::new(2, 1, EdgeKind::Contains)));
}

#[test]
fn idempotent_upsert_and_bfs() {
    let mut store = Store::new();
    let g = &mut store.graph;
    let a = Node::new(NodeKind::Session, "s1", "session 1", 10);
    let b = Node::new(NodeKind::Decision, "use redb", "use redb", 20);
    let c = Node::new(NodeKind::File, "src/store.rs", "store.rs", 30);
    let (ai, bi, ci) = (a.id, b.id, c.id);
    g.upsert_node(a.clone());
    g.upsert_node(a);
    g.upsert_node(b);
    g.upsert_node(c);
    g.upsert_edge(Edge::new(bi, ai, EdgeKind::DecidedIn));
    g.upsert_edge(Edge::new(bi, ci, EdgeKind::Produced));
    g.upsert_edge(Edge::new(bi, ci, EdgeKind::Produced));
    assert_eq!(g.node_count(), 3);
    assert_eq!(g.edge_count(), 2);
    let (ns, es) = g.neighbors(bi, 1);
    assert_eq!(ns.len(), 3, "decision + both neighbors");
    assert_eq!(es.len(), 2);
    let (ns, es) = g.neighbors(ai, 1);
    assert_eq!((ns.len(), es.len()), (2, 1));
    let (ns, es) = g.neighbors(ai, 2);
    assert_eq!((ns.len(), es.len()), (3, 2));
    let mut ids = vec![ai, bi, ci];
    ids.sort();
    assert_eq!(ns.iter().map(|n| n.id).collect::<Vec<NodeId>>(), ids, "in ascending order");
    let (ns, es) = g.neighbors(12345, 2);
    assert_eq!((ns.len(), es.len()), (0, 0));
    g.upsert_edge(Edge::new(bi, 12345, EdgeKind::Produced));
    assert_eq!(g.edge_count(), 2, "both ends have to be there");
}

#[test]
fn supersedes_chain_and_degree() {
    let mut store = Store::new();
    let g = &mut store.graph;
    let a = Node::new(NodeKind::Decision, "use sled", "use sled", 10);
    let b = Node::new(NodeKind::Decision, "use redb", "use redb", 20);
    let c = Node::new(NodeKind::Decision, "use redb v2", "use redb v2", 30);
    let (ai, bi, ci) = (a.id, b.id, c.id);
    g.upsert_node(a);
    g.upsert_node(b);
    g.upsert_node(c);
    g.upsert_edge(Edge::new(bi, ai, EdgeKind::Supersedes));
    g.upsert_edge(Edge::new(ci, bi, EdgeKind::Supersedes));
    assert_eq!(g.superseder_of(ai), Some(ci), "follows the chain a→b→c to the head");
    assert_eq!(g.superseder_of(bi), Some(ci));
    assert_eq!(g.superseder_of(ci), None, "the head is not superseded");
    assert_eq!(g.degree(ai), 1, "one incident edge");
    assert_eq!(g.degree(bi), 2, "superseded by c, supersedes a");
    g.upsert_edge(Edge::new(ai, ci, EdgeKind::Supersedes));
    assert_eq!(g.superseder_of(ai), None, "a circle has no head");
}

#[test]
fn merging_keeps_the_richer_copy() {
    let mut store = Store::new();
    let g = &mut store.graph;
    let rich = Provenance { source_priority: 3, source_tool: "git".to_string(), ..Provenance::default() };
    let poor = Provenance { source_priority: 1, source_tool: "x".to_string(), ..Provenance::default() };
    let a = Node::new(NodeKind::File, "f", "f", 20).with_body("old").attr("k", "1").attr("l", "1").with_provenance(rich);
    let b = Node::new(NodeKind::File, "f", "g", 10).attr("k", "2").with_provenance(poor);
    let id = a.id;
    g.upsert_node(a);
    g.upsert_node(b);
    let n = g.get(id).unwrap();
    assert_eq!((n.first_seen_ms, n.last_updated_ms), (10, 20));
    assert_eq!(n.body, "old");
    assert_eq!(n.label, "g");
    assert_eq!(n.attrs.get("k").map(|s| s.as_str()), Some("2"));
    assert_eq!(n.attrs.get("l").map(|s| s.as_str()), Some("1"));
    assert_eq!(n.provenance.as_ref().unwrap().source_tool, "git");
}

#[test]
fn notes_are_redacted_and_repeatable() {
    let key = format!("sk-ant-{}", "c".repeat(30));
    let mut store = Store::new();
    let (id, plan) = plan_note(Some("keys"), &format!("never use {key} again"), 7).unwrap();
    put(&mut store, plan);
    let (again, plan) = plan_note(Some("keys"), &format!("never use {key} again"), 9).unwrap();
    put(&mut store, plan);
    assert_eq!(id, again);
    assert_eq!(store.graph.node_count(), 1);
    let n = store.graph.get(id).unwrap();
    assert!(!n.body.contains(&key));
    assert!(n.kind == NodeKind::Decision);
    assert_eq!((n.first_seen_ms, n.last_updated_ms), (7, 9));
    assert!(plan_note(None, "  \n", 7).is_none());
    assert_eq!(note_text("  x "), Some("x".to_string()));
    assert_eq!(note_text(" \t"), None);
}

#[test]
fn commits_are_tied_to_files() {
    let mut store = Store::new();
    let mut scan = RepoScan::new("demo");
    scan.visit("src/lib.rs", Some("lib.rs"), Some("rs"), Some("pub fn f() {}\n"));
    scan.visit("README.md", Some("README.md"), Some("md"), None);
    let h = History {
        head: Some("0123456789abcdef".to_string()),
        workdir: Some("/repo".to_string()),
        commits: vec![CommitMeta {
            oid: "0123456789abcdef".to_string(),
            short: "01234567".to_string(),
            summary: "first".to_string(),
            author: "A".to_string(),
            time_ms: 1000,
            changed: vec![
                "crates/x/README.md".to_string(),
                "other.md".to_string(),
                "src/lib.rs".to_string(),
            ],
        }],
    };
    put(&mut store, plan_repo(&scan.finish(), "/repo/crates/x", Some(&h), "crates/x/", 5000));
    let commit = node_id(NodeKind::Commit, "0123456789abcdef");
    assert_eq!(store.graph.get(commit).unwrap().label, "01234567");
    let changed: Vec<&Edge> =
        store.graph.edges().iter().filter(|e| e.kind == EdgeKind::ChangedBy).collect();
    assert_eq!(changed.len(), 1, "a file of the same name outside the root is another file");
    assert_eq!(store.graph.get(changed[0].from).unwrap().label, "README.md");
    let repo = node_id(NodeKind::Repo, "/repo/crates/x");
    assert_eq!(store.graph.get(repo).unwrap().attrs.get("commit").map(|s| s.as_str()), Some("01234567"));
    assert_eq!(git_prefix_of("crates\\x"), "crates/x/");
    assert_eq!(git_prefix_of(""), "");
}

#[test]
fn files_of_two_repos_stay_apart() {
    let a = lore::records::file_identity_of("/a", "src/lib.rs");
    let b = lore::records::file_identity_of("/b", "src/lib.rs");
    assert_eq!(a, "/a\u{1}src/lib.rs");
    assert_ne!(node_id(NodeKind::File, &a), node_id(NodeKind::File, &b));
}

#[test]
fn ingesting_again_adds_nothing() {
    let mut store = Store::new();
    let s = demo_session();
    let canonical: Vec<Vec<String>> = s.turns.iter().map(|t| t.touched_files.clone()).collect();
    let mut scan = RepoScan::new("demo");
    scan.visit("src/lib.rs", Some("lib.rs"), Some("rs"), Some("pub fn f() {}\n"));
    scan.visit("Cargo.toml", Some("Cargo.toml"), Some("toml"), Some("[dependencies]\na = \"1\"\n"));
    let scan = scan.finish();
    put(&mut store, plan_session(&s, &extract(&s.turns), 5000, Some("/repo"), &canonical));
    put(&mut store, plan_repo(&scan, "/repo", None, "", 5000));
    let counts = (store.graph.node_count(), store.graph.edge_count(), store.index.len());
    put(&mut store, plan_session(&s, &extract(&s.turns), 9000, Some("/repo"), &canonical));
    put(&mut store, plan_repo(&scan, "/repo", None, "", 9000));
    assert_eq!((store.graph.node_count(), store.graph.edge_count(), store.index.len()), counts);
}

#[test]
fn decisions_and_turns_are_anchored() {
    let key = format!("sk-{}", "a".repeat(30));
    let mut s = demo_session();
    s.turns[1].text = format!("Let's use redb with {key} for the durable store.");
    let canonical: Vec<Vec<String>> = s.turns.iter().map(|t| t.touched_files.clone()).collect();
    let mut store = Store::new();
    put(&mut store, plan_session(&s, &extract(&s.turns), 5000, None, &canonical));
    let edges: Vec<&Edge> = store.graph.edges().iter().filter(|e| e.kind == EdgeKind::DecidedIn).collect();
    assert_eq!(edges.len(), 1);
    let d = store.graph.get(edges[0].from).unwrap();
    let p = d.provenance.as_ref().unwrap();
    assert_eq!(p.native_session_id.as_deref(), Some("s-123"));
    assert_eq!(p.commit.as_deref(), Some("abc123"));
    assert!(!d.label.contains(&key));
    assert!(d.label.contains("<redacted:openai_key:"));
    let session = edges[0].to;
    assert!(store.graph.get(session).unwrap().kind == NodeKind::Session);
    let held = store.graph.edges().iter().filter(|e| e.kind == EdgeKind::Contains && e.from == session);
    assert_eq!(held.count(), 2);
}

fn three() -> (Store, [NodeId; 3]) {
    let mut store = Store::new();
    let a = Node::new(NodeKind::Session, "s", "session", 30).with_body("Long body. More.");
    let b = Node::new(NodeKind::Decision, "d", "decision", 10).with_summary("gist");
    let c = Node::new(NodeKind::File, "f", "file", 20);
    let ids = [a.id, b.id, c.id];
    store.graph.upsert_node(a);
    store.graph.upsert_node(b);
    store.graph.upsert_node(c);
    store.graph.upsert_edge(Edge::new(ids[1], ids[0], EdgeKind::DecidedIn));
    store.graph.upsert_edge(Edge::new(ids[1], ids[2], EdgeKind::Produced));
    (store, ids)
}

#[test]
fn slices_are_filtered_and_bounded() {
    let (store, ids) = three();
    let all = graph_slice(&store.graph, None, None);
    let got: Vec<&str> = all.nodes.iter().map(|n| n.label.as_str()).collect();
    assert_eq!(got, vec!["session", "file", "decision"], "latest change first");
    assert_eq!(all.edges.len(), 2);
    assert_eq!(all.edges[0].from, ids[1].to_string());
    assert_eq!(f32::from_bits(all.edges[0].weight), 1.0);
    let two = graph_slice(&store.graph, Some(2), None);
    assert_eq!(two.nodes.len(), 2);
    assert!(two.edges.is_empty(), "no dangling edge");
    let some = graph_slice(&store.graph, None, Some(" DECISION , session"));
    assert_eq!(some.nodes.len(), 2);
    assert_eq!(some.edges.len(), 1);
    assert_eq!(some.edges[0].kind, "decided_in");
    assert!(graph_slice(&store.graph, None, Some("")).nodes.is_empty());
    let mut debts = Store::new();
    debts.graph.upsert_node(Node::new(NodeKind::DebtSignal, "d", "d", 1));
    for name in ["DebtSignal", "debtsignal", "debt_signal", "File, DebtSignal"] {
        let one = graph_slice(&debts.graph, None, Some(name));
        assert_eq!(one.nodes.len(), 1, "{name}");
        assert_eq!(one.nodes[0].kind, "debt_signal");
        assert!(one.edges.is_empty());
    }
    assert!(graph_slice(&debts.graph, None, Some("Debt Signal")).nodes.is_empty());
    assert_eq!(all.nodes[0].summary, "Long body.");
    assert_eq!(all.nodes[1].summary, "file");
    assert_eq!(all.nodes[2].summary, "gist");
    assert!(all.nodes.iter().all(|n| n.body.is_none()));
}

#[test]
fn single_nodes_and_neighbourhoods_are_answered() {
    let (store, ids) = three();
    let n = node_detail(&store.graph, &ids[0].to_string()).unwrap();
    assert_eq!(n.body.as_deref(), Some("Long body. More."));
    assert_eq!(n.kind, "session");
    assert!(node_detail(&store.graph, "nope").is_none());
    assert!(node_detail(&store.graph, "1").is_none());
    let near = neighbors(&store.graph, &ids[0].to_string(), None);
    assert_eq!((near.nodes.len(), near.edges.len()), (2, 1));
    let far = neighbors(&store.graph, &ids[0].to_string(), Some(99));
    assert_eq!((far.nodes.len(), far.edges.len()), (3, 2));
    let none = neighbors(&store.graph, "x", None);
    assert_eq!((none.nodes.len(), none.edges.len()), (0, 0));
}

#[test]
fn timelines_run_both_ways() {
    let (store, _ids) = three();
    let old: Vec<String> = timeline(&store.graph, None).iter().map(|n| n.label.clone()).collect();
    assert_eq!(old, vec!["decision", "file", "session"]);
    let new: Vec<String> =
        lore::mcp::timeline(&store.graph, Some(2)).iter().map(|n| n.label.clone()).collect();
    assert_eq!(new, vec!["session", "file"]);
    assert_eq!(lore::api::search_size(None), 12);
    assert_eq!(lore::api::search_size(Some(500)), 100);
    assert_eq!(lore::mcp::search_size(None), 8);
    assert_eq!(lore::mcp::search_size(Some(500)), 50);
}

#[test]
fn tools_answer_from_evidence() {
    let mut store = Store::new();
    ingest(&mut store, &demo_session());
    let res = recall(&store, "durable store", 20);
    let decisions = recall_decision(&res.results, "durable store");
    assert!(!decisions.is_empty());
    assert_eq!(decisions[0].session.as_deref(), Some("s-123"));
    assert_eq!(decisions[0].commit.as_deref(), Some("abc123"));
    assert_eq!(f32::from_bits(decisions[0].confidence), 0.5);
    assert_eq!(decisions[0].topic, "durable store");
    let near = related(&store.graph, &res.results);
    assert_eq!(near.seed.as_ref(), Some(&res.results[0].id));
    assert!(near.nodes.len() > 1);
    assert!(!near.edges.is_empty());
    let none = related(&store.graph, &vec![]);
    assert!(none.seed.is_none() && none.nodes.is_empty() && none.edges.is_empty());
    let names: Vec<&str> = tools().iter().map(|t| t.name()).collect();
    assert_eq!(
        names,
        vec!["memory.search", "memory.recall_decision", "memory.related", "memory.timeline", "memory.note"]
    );
    assert!(tools().iter().all(|t| !t.description().is_empty()));
}
