//! What is written to the graph for a session, a repository or a note: a list of mutations in
//! which every node comes before the edges that need it.

use vstd::prelude::*;

use crate::coderepo::{RepoScan, RepoScanV, Symbol, SymbolV};
use crate::decimal;
use crate::decision;
use crate::decision::{Candidate, CandidateV};
use crate::digest;
use crate::git;
use crate::git::{CommitMeta, CommitV, History};
use crate::model;
use crate::model::{
    CanonicalSession, CanonicalSessionV, Edge, EdgeKind, EdgeV, MessageKind, Node, NodeId,
    NodeKind, NodeV, Provenance, ProvenanceV, Turn, TurnV, F32_ONE,
};
use crate::paths;
use crate::redact;
use crate::sorted;
use crate::sorted::TextSet;
use crate::text;

verus! {

/// One mutation: a node, an edge, or a text whose embedding belongs to a node.
pub enum Mutation {
    Node(Node),
    Edge(Edge),
    Embed(NodeId, String),
}

/// What a mutation says.
#[verifier::ext_equal]
pub enum MutationV {
    Node(NodeV),
    Edge(EdgeV),
    Embed(NodeId, Seq<char>),
}

impl View for Mutation {
    type V = MutationV;

    open spec fn view(&self) -> MutationV {
        match self {
            Mutation::Node(n) => MutationV::Node(n@),
            Mutation::Edge(e) => MutationV::Edge(e@),
            Mutation::Embed(id, t) => MutationV::Embed(*id, t@),
        }
    }
}

/// The views of a list of mutations.
pub open spec fn plan_view(v: Seq<Mutation>) -> Seq<MutationV> {
    v.map_values(|m: Mutation| m@)
}

fn put(out: &mut Vec<Mutation>, m: Mutation)
    ensures
        plan_view(final(out)@) == plan_view(old(out)@).push(m@),
{
    out.push(m);
    assert(plan_view(out@) =~= plan_view(old(out)@).push(m@));
}

fn add_edge(out: &mut Vec<Mutation>, from: NodeId, to: NodeId, kind: EdgeKind)
    ensures
        plan_view(final(out)@) == plan_view(old(out)@).push(
            MutationV::Edge(model::new_edge(from, to, kind)),
        ),
{
    put(out, Mutation::Edge(Edge::new(from, to, kind)));
}

/// The embedding of a text, unless it is blank.
pub open spec fn embed_part(id: NodeId, t: Seq<char>) -> Seq<MutationV> {
    if text::trimmed(t).len() == 0 {
        Seq::empty()
    } else {
        seq![MutationV::Embed(id, t)]
    }
}

/// The digest of a text, in hexadecimal.
pub open spec fn text_digest(t: Seq<char>) -> Seq<char> {
    digest::hex(digest::blake3_digest(vstd::utf8::encode_utf8(t))@)
}

fn digest_text(t: &str) -> (r: Vec<char>)
    ensures
        r@ == text_digest(t@),
{
    digest::to_hex(&digest::blake3_hash(t.as_bytes()))
}

/// The identity of a file: its repository and its relative path. The same path in two
/// repositories stands for two files.
pub open spec fn file_identity(repo: Seq<char>, rel: Seq<char>) -> Seq<char> {
    repo.push('\u{1}') + rel
}

/// The identity of a file.
pub fn file_identity_of(repo: &str, rel: &str) -> (r: String)
    ensures
        r@ == file_identity(repo@, rel@),
{
    let mut out = text::chars_of(repo);
    out.push('\u{1}');
    text::append_str(&mut out, rel);
    text::string_of(&out)
}

/// The node of a file.
pub open spec fn file_node(repo: Seq<char>, rel: Seq<char>, now: i64) -> NodeV {
    NodeV {
        attrs: Map::empty().insert("path"@, rel),
        ..model::new_node(NodeKind::File, file_identity(repo, rel), paths::base_of(rel), now)
    }
}

fn make_file_node(repo: &str, rel: &str, now: i64) -> (r: Node)
    ensures
        r@ == file_node(repo@, rel@, now),
{
    let fid = file_identity_of(repo, rel);
    let base = paths::basename(rel);
    let node = Node::new(NodeKind::File, fid.as_str(), base.as_str(), now);
    node.attr("path", rel)
}

// ---------------------------------------------------------------------------
// Sessions
// ---------------------------------------------------------------------------

/// What a session is written with besides itself: the time, the canonical root of its
/// repository, and the canonical forms of the paths that its turns touched.
pub struct SessionContext {
    pub session: CanonicalSessionV,
    pub now: i64,
    pub repo: Option<Seq<char>>,
    pub canonical: Seq<Seq<Seq<char>>>,
}

/// The name under which a repository's files are known; empty where there is none.
pub open spec fn repo_or_empty(repo: Option<Seq<char>>) -> Seq<char> {
    match repo {
        Some(r) => r,
        None => Seq::empty(),
    }
}

/// When a session started; now, where it does not say.
pub open spec fn started(c: SessionContext) -> i64 {
    match c.session.started_at_ms {
        Some(t) => t,
        None => c.now,
    }
}

/// The identity of a session.
pub open spec fn session_identity(s: CanonicalSessionV) -> Seq<char> {
    s.agent.name().push(':') + s.native_session_id
}

/// The id of a session.
pub open spec fn session_node_id(s: CanonicalSessionV) -> NodeId {
    model::id_of(NodeKind::Session, session_identity(s))
}

/// The first user turn of some value, cut to 200 characters; empty where there is none.
pub open spec fn intro(turns: Seq<TurnV>) -> Seq<char>
    decreases turns.len(),
{
    if turns.len() == 0 {
        Seq::empty()
    } else if turns[0].kind == MessageKind::User && !decision::low_value(turns[0].text) {
        text::first_chars(turns[0].text, 200)
    } else {
        intro(turns.drop_first())
    }
}

/// Where the nodes of a session come from.
pub open spec fn session_provenance(s: CanonicalSessionV) -> ProvenanceV {
    ProvenanceV {
        source_tool: s.agent.name(),
        native_session_id: Some(s.native_session_id),
        native_path: s.source_path,
        connector_version: s.connector_version,
        commit: s.commit,
        span: None,
        source_priority: 2,
        confidence: F32_ONE,
        extractor: "deterministic-v1"@,
    }
}

/// The node of a session.
pub open spec fn session_node(c: SessionContext) -> NodeV {
    let opening = intro(c.session.turns);
    NodeV {
        body: opening,
        summary: model::summary_of(opening),
        provenance: Some(session_provenance(c.session)),
        ..model::new_node(
            NodeKind::Session,
            session_identity(c.session),
            "session "@ + text::first_chars(c.session.native_session_id, 8),
            started(c),
        )
    }
}

/// The node of a repository, as a session knows it.
pub open spec fn repo_node(repo: Seq<char>, label: Seq<char>, now: i64) -> NodeV {
    NodeV {
        attrs: Map::empty().insert("path"@, repo),
        ..model::new_node(NodeKind::Repo, repo, label, now)
    }
}

/// The session itself, and the repository that it comes from.
pub open spec fn session_head(c: SessionContext) -> Seq<MutationV> {
    let id = session_node_id(c.session);
    seq![MutationV::Node(session_node(c))] + embed_part(id, intro(c.session.turns)) + (
    match c.repo {
        Some(repo) => seq![
            MutationV::Node(repo_node(repo, paths::base_of(repo), c.now)),
            MutationV::Edge(
                model::new_edge(id, model::id_of(NodeKind::Repo, repo), EdgeKind::DerivedFrom),
            ),
        ],
        None => Seq::empty(),
    })
}

/// The files that something touched or produced: each file's node, and the edge to it.
pub open spec fn files_part(
    owner: NodeId,
    kind: EdgeKind,
    touched: Seq<Seq<char>>,
    canonical: Seq<Seq<char>>,
    repo: Option<Seq<char>>,
    now: i64,
) -> Seq<MutationV>
    decreases touched.len(),
{
    if touched.len() == 0 {
        Seq::empty()
    } else {
        let i = touched.len() - 1;
        let rel = paths::relative(repo, touched[i], canonical[i]);
        let file = file_node(repo_or_empty(repo), rel, now);
        files_part(owner, kind, touched.drop_last(), canonical, repo, now) + seq![
            MutationV::Node(file),
            MutationV::Edge(model::new_edge(owner, file.id, kind)),
        ]
    }
}

/// Whether a turn becomes a node: a user or assistant turn of some value.
pub open spec fn is_kept(t: TurnV) -> bool {
    (t.kind == MessageKind::User || t.kind == MessageKind::Assistant) && !decision::low_value(
        t.text,
    )
}

/// The identity of a turn.
pub open spec fn turn_identity(s: CanonicalSessionV, t: TurnV) -> Seq<char> {
    session_identity(s).push(':') + decimal::decimal(t.index as nat).push(':') + text_digest(t.text)
}

/// The node of a turn.
pub open spec fn turn_node(c: SessionContext, t: TurnV) -> NodeV {
    NodeV {
        body: t.text,
        summary: model::summary_of(t.text),
        provenance: Some(
            ProvenanceV { span: Some((t.index, t.index)), ..session_provenance(c.session) },
        ),
        ..model::new_node(
            NodeKind::Turn,
            turn_identity(c.session, t),
            text::first_chars(t.text, 48),
            match t.ts_ms {
                Some(ms) => ms,
                None => started(c),
            },
        )
    }
}

/// A turn: its node, its embedding, the edge from its session, and the files that it touched.
pub open spec fn turn_part(c: SessionContext, i: int) -> Seq<MutationV> {
    let t = c.session.turns[i];
    let node = turn_node(c, t);
    if is_kept(t) {
        seq![MutationV::Node(node)] + embed_part(node.id, t.text) + seq![
            MutationV::Edge(
                model::new_edge(session_node_id(c.session), node.id, EdgeKind::Contains),
            ),
        ] + files_part(node.id, EdgeKind::Touches, t.touched_files, c.canonical[i], c.repo, c.now)
    } else {
        Seq::empty()
    }
}

/// The first `n` turns.
pub open spec fn turns_part(c: SessionContext, n: nat) -> Seq<MutationV>
    decreases n,
{
    if n == 0 {
        Seq::empty()
    } else {
        turns_part(c, (n - 1) as nat) + turn_part(c, n - 1)
    }
}

/// Redacted texts.
pub open spec fn redacted_all(ts: Seq<Seq<char>>) -> Seq<Seq<char>> {
    ts.map_values(|t: Seq<char>| redact::redacted(t))
}

/// The identity of a decision: within its repository, or else within its session, its text in
/// lower case.
pub open spec fn decision_identity(c: SessionContext, t: Seq<char>) -> Seq<char> {
    (match c.repo {
        Some(repo) => repo,
        None => session_identity(c.session),
    }) + "::"@ + text::lowered(t)
}

/// The body of a decision: its text, and why.
pub open spec fn decision_body(t: Seq<char>, rationale: Seq<char>) -> Seq<char> {
    if rationale.len() == 0 {
        t
    } else {
        t + "\n\nRationale: "@ + rationale
    }
}

/// The node of a decision.
pub open spec fn decision_node(c: SessionContext, cand: CandidateV) -> NodeV {
    let t = redact::redacted(cand.text);
    let rejected = redacted_all(cand.rejected);
    NodeV {
        body: decision_body(t, redact::redacted(cand.rationale)),
        summary: model::summary_of(t),
        provenance: Some(
            ProvenanceV {
                confidence: cand.confidence,
                extractor: cand.extractor,
                ..session_provenance(c.session)
            },
        ),
        attrs: if rejected.len() == 0 {
            Map::empty()
        } else {
            Map::empty().insert("rejected"@, text::joined(rejected, "; "@))
        },
        ..model::new_node(NodeKind::Decision, decision_identity(c, t), t, started(c))
    }
}

/// A decision: its node, its embedding, the edge to its session, and the files that its turn
/// touched.
pub open spec fn decision_part(c: SessionContext, cand: CandidateV) -> Seq<MutationV> {
    let node = decision_node(c, cand);
    let i = cand.turn_index as int;
    seq![MutationV::Node(node)] + embed_part(node.id, redact::redacted(cand.text)) + seq![
        MutationV::Edge(model::new_edge(node.id, session_node_id(c.session), EdgeKind::DecidedIn)),
    ] + (if i < c.session.turns.len() {
        files_part(
            node.id,
            EdgeKind::Produced,
            c.session.turns[i].touched_files,
            c.canonical[i],
            c.repo,
            c.now,
        )
    } else {
        Seq::empty()
    })
}

/// The decisions.
pub open spec fn decisions_part(c: SessionContext, cands: Seq<CandidateV>) -> Seq<MutationV>
    decreases cands.len(),
{
    if cands.len() == 0 {
        Seq::empty()
    } else {
        decisions_part(c, cands.drop_last()) + decision_part(c, cands.last())
    }
}

/// Whether no secret is left in the words and the reasons that are written for a decision.
pub open spec fn hides(cand: CandidateV) -> bool {
    !redact::has_secret(redact::redacted(cand.text)) && !redact::has_secret(
        redact::redacted(cand.rationale),
    )
}

/// All that is written for a session.
pub open spec fn session_plan(c: SessionContext, cands: Seq<CandidateV>) -> Seq<MutationV> {
    session_head(c) + turns_part(c, c.session.turns.len()) + decisions_part(c, cands)
}

/// The views of lists of strings.
pub open spec fn string_lists(v: Seq<Vec<String>>) -> Seq<Seq<Seq<char>>> {
    v.map_values(|l: Vec<String>| text::string_views(l@))
}

/// Whether there is a canonical form for each touched path.
pub open spec fn canonical_fits(s: CanonicalSession, canonical: Seq<Vec<String>>) -> bool {
    &&& canonical.len() == s.turns@.len()
    &&& forall|i: int|
        0 <= i < canonical.len() ==> (#[trigger] canonical[i])@.len()
            == s.turns@[i].touched_files@.len()
}

fn make_session_identity(s: &CanonicalSession) -> (r: Vec<char>)
    ensures
        r@ == session_identity(s@),
{
    let mut out = text::chars_of(s.agent.tag());
    out.push(':');
    text::append_str(&mut out, s.native_session_id.as_str());
    out
}

fn make_intro(turns: &Vec<Turn>) -> (r: String)
    ensures
        r@ == intro(model::turn_views(turns@)),
{
    let ghost ts = model::turn_views(turns@);
    let n: usize = turns.len();
    assert(ts.skip(0) =~= ts);
    for i in 0..n
        invariant
            n == turns@.len(),
            ts == model::turn_views(turns@),
            intro(ts) == intro(ts.skip(i as int)),
    {
        let t = &turns[i];
        assert(ts.skip(i as int)[0] == t@);
        assert(ts.skip(i as int).drop_first() =~= ts.skip(i + 1));
        if t.kind == MessageKind::User && !decision::is_low_value_turn(t.text.as_str()) {
            return text::string_of(&text::take(&text::chars_of(t.text.as_str()), 200));
        }
    }
    String::new()
}

fn make_provenance(s: &CanonicalSession) -> (r: Provenance)
    ensures
        r@ == session_provenance(s@),
{
    Provenance {
        source_tool: model::owned(s.agent.tag()),
        native_session_id: Some(s.native_session_id.clone()),
        native_path: model::copy_opt(&s.source_path),
        connector_version: model::copy_opt(&s.connector_version),
        commit: model::copy_opt(&s.commit),
        span: None,
        source_priority: 2,
        confidence: F32_ONE,
        extractor: model::owned("deterministic-v1"),
    }
}

fn add_embed(out: &mut Vec<Mutation>, id: NodeId, t: &str)
    ensures
        plan_view(final(out)@) == plan_view(old(out)@) + embed_part(id, t@),
{
    if text::trim(&text::chars_of(t)).len() != 0 {
        put(out, Mutation::Embed(id, model::owned(t)));
        assert(plan_view(out@) =~= plan_view(old(out)@) + embed_part(id, t@));
    } else {
        assert(plan_view(old(out)@) + embed_part(id, t@) =~= plan_view(old(out)@));
    }
}

fn add_files(
    out: &mut Vec<Mutation>,
    owner: NodeId,
    kind: EdgeKind,
    touched: &Vec<String>,
    canonical: &Vec<String>,
    repo: Option<&str>,
    now: i64,
)
    requires
        touched@.len() == canonical@.len(),
    ensures
        plan_view(final(out)@) == plan_view(old(out)@) + files_part(
            owner,
            kind,
            text::string_views(touched@),
            text::string_views(canonical@),
            crate::coderepo::slice_opt(repo),
            now,
        ),
{
    let ghost was = plan_view(out@);
    let ghost ts = text::string_views(touched@);
    let ghost cs = text::string_views(canonical@);
    let ghost rp = crate::coderepo::slice_opt(repo);
    let n: usize = touched.len();
    assert(ts.take(0) =~= Seq::empty());
    assert(was + Seq::empty() =~= was);
    for i in 0..n
        invariant
            n == touched@.len() == canonical@.len(),
            ts == text::string_views(touched@),
            cs == text::string_views(canonical@),
            rp == crate::coderepo::slice_opt(repo),
            plan_view(out@) == was + files_part(owner, kind, ts.take(i as int), cs, rp, now),
    {
        assert(ts.take(i + 1).drop_last() =~= ts.take(i as int));
        let ghost before = plan_view(out@);
        let rel = paths::rel_path(repo, touched[i].as_str(), canonical[i].as_str());
        let ns: &str = match repo {
            Some(r) => r,
            None => {
                proof {
                    reveal_strlit("");
                    assert(""@ =~= Seq::empty());
                }
                ""
            },
        };
        let node = make_file_node(ns, rel.as_str(), now);
        let file_id = node.id;
        put(out, Mutation::Node(node));
        add_edge(out, owner, file_id, kind);
        assert(rel@ == paths::relative(rp, ts.take(i + 1)[i as int], cs[i as int]));
        let ghost file = file_node(repo_or_empty(rp), rel@, now);
        assert(plan_view(out@) =~= before + seq![
            MutationV::Node(file),
            MutationV::Edge(model::new_edge(owner, file.id, kind)),
        ]);
        assert(was + (files_part(owner, kind, ts.take(i as int), cs, rp, now) + seq![
            MutationV::Node(file),
            MutationV::Edge(model::new_edge(owner, file.id, kind)),
        ]) =~= plan_view(out@));
    }
    assert(ts.take(n as int) =~= ts);
}

fn make_turn_identity(s: &CanonicalSession, t: &Turn) -> (r: String)
    ensures
        r@ == turn_identity(s@, t@),
{
    let mut out = make_session_identity(s);
    out.push(':');
    text::append(&mut out, &decimal::to_decimal(t.index as u128));
    out.push(':');
    text::append(&mut out, &digest_text(t.text.as_str()));
    assert(out@ =~= turn_identity(s@, t@));
    text::string_of(&out)
}

fn make_turn_node(s: &CanonicalSession, t: &Turn, started_ms: i64, Ghost(c): Ghost<SessionContext>) -> (r: Node)
    requires
        c.session == s@,
        started_ms == started(c),
    ensures
        r@ == turn_node(c, t@),
{
    let identity = make_turn_identity(s, t);
    let label = text::string_of(&text::take(&text::chars_of(t.text.as_str()), 48));
    let at: i64 = match t.ts_ms {
        Some(ms) => ms,
        None => started_ms,
    };
    let mut p = make_provenance(s);
    p.span = Some((t.index, t.index));
    let summary = model::summarize(t.text.as_str());
    let node = Node::new(NodeKind::Turn, identity.as_str(), label.as_str(), at);
    let node = node.with_body(t.text.as_str());
    let node = node.with_summary(summary.as_str());
    node.with_provenance(p)
}

fn make_decision_identity(s: &CanonicalSession, repo: Option<&str>, t: &str, Ghost(c): Ghost<SessionContext>) -> (r: String)
    requires
        c.session == s@,
        c.repo == crate::coderepo::slice_opt(repo),
    ensures
        r@ == decision_identity(c, t@),
{
    let mut out = match repo {
        Some(r) => text::chars_of(r),
        None => make_session_identity(s),
    };
    text::append_str(&mut out, "::");
    text::append(&mut out, &text::lower(&text::chars_of(t)));
    text::string_of(&out)
}

fn redact_all(ts: &Vec<String>) -> (r: Vec<Vec<char>>)
    ensures
        text::views(r@) == redacted_all(text::string_views(ts@)),
{
    let mut out: Vec<Vec<char>> = Vec::new();
    let n: usize = ts.len();
    for i in 0..n
        invariant
            n == ts@.len(),
            out@.len() == i,
            forall|j: int| 0 <= j < i ==> (#[trigger] out@[j])@ == redact::redacted(ts@[j]@),
    {
        out.push(text::chars_of(redact::redact(ts[i].as_str()).as_str()));
    }
    assert(text::views(out@) =~= redacted_all(text::string_views(ts@)));
    out
}

fn make_decision_node(
    s: &CanonicalSession,
    repo: Option<&str>,
    cand: &Candidate,
    t: &str,
    started_ms: i64,
    Ghost(c): Ghost<SessionContext>,
) -> (r: Node)
    requires
        c.session == s@,
        c.repo == crate::coderepo::slice_opt(repo),
        started_ms == started(c),
        t@ == redact::redacted(cand@.text),
    ensures
        r@ == decision_node(c, cand@),
        !redact::has_secret(redact::redacted(cand@.rationale)),
{
    let rationale = redact::redact(cand.rationale.as_str());
    let rejected = redact_all(&cand.rejected);
    let identity = make_decision_identity(s, repo, t, Ghost(c));
    let mut body = text::chars_of(t);
    if !rationale.as_str().is_empty() {
        text::append_str(&mut body, "\n\nRationale: ");
        text::append_str(&mut body, rationale.as_str());
    }
    assert(body@ =~= decision_body(t@, rationale@));
    let body = text::string_of(&body);
    let mut p = make_provenance(s);
    p.confidence = cand.confidence;
    p.extractor = model::owned(cand.extractor);
    let summary = model::summarize(t);
    let node = Node::new(NodeKind::Decision, identity.as_str(), t, started_ms);
    let node = node.with_body(body.as_str());
    let node = node.with_summary(summary.as_str());
    let node = node.with_provenance(p);
    assert(text::views(rejected@).len() == rejected@.len());
    if rejected.len() != 0 {
        let sep = text::chars_of("; ");
        let all = text::string_of(&text::join(&rejected, &sep));
        node.attr("rejected", all.as_str())
    } else {
        node
    }
}

/// Plans what is written for a session. `canonical` holds the canonical form of each touched
/// path, turn by turn; `cands` are the session's decisions.
pub fn plan_session(
    s: &CanonicalSession,
    cands: &Vec<Candidate>,
    now: i64,
    repo: Option<&str>,
    canonical: &Vec<Vec<String>>,
) -> (r: Vec<Mutation>)
    requires
        canonical_fits(*s, canonical@),
    ensures
        plan_view(r@) == session_plan(
            SessionContext {
                session: s@,
                now,
                repo: crate::coderepo::slice_opt(repo),
                canonical: string_lists(canonical@),
            },
            decision::candidate_views(cands@),
        ),
        forall|i: int| 0 <= i < cands@.len() ==> hides((#[trigger] cands@[i])@),
{
    let ghost c = SessionContext {
        session: s@,
        now,
        repo: crate::coderepo::slice_opt(repo),
        canonical: string_lists(canonical@),
    };
    let started_ms: i64 = match s.started_at_ms {
        Some(t) => t,
        None => now,
    };
    let mut out: Vec<Mutation> = Vec::new();
    let session_id = add_session_head(&mut out, s, now, started_ms, repo, Ghost(c));
    add_turns(&mut out, s, now, started_ms, session_id, repo, canonical, Ghost(c));
    let ghost before = plan_view(out@);
    let ghost cs = decision::candidate_views(cands@);
    let n: usize = cands.len();
    assert(cs.take(0) =~= Seq::empty());
    assert(before + Seq::empty() =~= before);
    for i in 0..n
        invariant
            n == cands@.len(),
            cs == decision::candidate_views(cands@),
            c.session == s@,
            c.now == now,
            c.repo == crate::coderepo::slice_opt(repo),
            c.canonical == string_lists(canonical@),
            canonical_fits(*s, canonical@),
            started_ms == started(c),
            session_id == session_node_id(c.session),
            plan_view(out@) == before + decisions_part(c, cs.take(i as int)),
            forall|j: int| 0 <= j < i ==> hides((#[trigger] cands@[j])@),
    {
        assert(cs.take(i + 1).drop_last() =~= cs.take(i as int));
        assert(cs.take(i + 1).last() == cands@[i as int]@);
        let ghost pre = plan_view(out@);
        add_decision(&mut out, s, &cands[i], now, started_ms, session_id, repo, canonical, Ghost(c));
        assert(pre + decision_part(c, cands@[i as int]@) =~= before + (decisions_part(
            c,
            cs.take(i as int),
        ) + decision_part(c, cands@[i as int]@)));
    }
    assert(cs.take(n as int) =~= cs);
    out
}

fn add_session_head(
    out: &mut Vec<Mutation>,
    s: &CanonicalSession,
    now: i64,
    started_ms: i64,
    repo: Option<&str>,
    Ghost(c): Ghost<SessionContext>,
) -> (id: NodeId)
    requires
        old(out)@.len() == 0,
        c.session == s@,
        c.now == now,
        c.repo == crate::coderepo::slice_opt(repo),
        started_ms == started(c),
    ensures
        id == session_node_id(c.session),
        plan_view(final(out)@) == session_head(c),
{
    let identity = text::string_of(&make_session_identity(s));
    let opening = make_intro(&s.turns);
    let mut label = text::chars_of("session ");
    text::append(&mut label, &text::take(&text::chars_of(s.native_session_id.as_str()), 8));
    let label = text::string_of(&label);
    let summary = model::summarize(opening.as_str());
    let node = Node::new(NodeKind::Session, identity.as_str(), label.as_str(), started_ms);
    let node = node.with_body(opening.as_str());
    let node = node.with_summary(summary.as_str());
    let node = node.with_provenance(make_provenance(s));
    assert(node@ == session_node(c));
    let id = node.id;
    put(out, Mutation::Node(node));
    assert(plan_view(out@) =~= seq![MutationV::Node(session_node(c))]);
    add_embed(out, id, opening.as_str());
    let ghost head = plan_view(out@);
    match repo {
        Some(rc) => {
            let base = paths::basename(rc);
            let node = Node::new(NodeKind::Repo, rc, base.as_str(), now);
            let node = node.attr("path", rc);
            let repo_id = node.id;
            put(out, Mutation::Node(node));
            add_edge(out, id, repo_id, EdgeKind::DerivedFrom);
            assert(plan_view(out@) =~= session_head(c));
        },
        None => {
            assert(plan_view(out@) =~= session_head(c));
        },
    }
    id
}

fn add_turns(
    out: &mut Vec<Mutation>,
    s: &CanonicalSession,
    now: i64,
    started_ms: i64,
    session_id: NodeId,
    repo: Option<&str>,
    canonical: &Vec<Vec<String>>,
    Ghost(c): Ghost<SessionContext>,
)
    requires
        c.session == s@,
        c.now == now,
        c.repo == crate::coderepo::slice_opt(repo),
        c.canonical == string_lists(canonical@),
        canonical_fits(*s, canonical@),
        started_ms == started(c),
        session_id == session_node_id(c.session),
    ensures
        plan_view(final(out)@) == plan_view(old(out)@) + turns_part(c, c.session.turns.len()),
{
    let ghost was = plan_view(out@);
    let n: usize = s.turns.len();
    assert(was + Seq::empty() =~= was);
    for i in 0..n
        invariant
            n == s.turns@.len(),
            c.session == s@,
            c.now == now,
            c.repo == crate::coderepo::slice_opt(repo),
            c.canonical == string_lists(canonical@),
            canonical_fits(*s, canonical@),
            started_ms == started(c),
            session_id == session_node_id(c.session),
            plan_view(out@) == was + turns_part(c, i as nat),
    {
        let t = &s.turns[i];
        assert(c.session.turns[i as int] == t@);
        let speaks = t.kind == MessageKind::User || t.kind == MessageKind::Assistant;
        let ghost before = plan_view(out@);
        if speaks && !decision::is_low_value_turn(t.text.as_str()) {
            let node = make_turn_node(s, t, started_ms, Ghost(c));
            let turn_id = node.id;
            put(out, Mutation::Node(node));
            add_embed(out, turn_id, t.text.as_str());
            add_edge(out, session_id, turn_id, EdgeKind::Contains);
            assert(canonical@[i as int]@.len() == s.turns@[i as int].touched_files@.len());
            add_files(out, turn_id, EdgeKind::Touches, &t.touched_files, &canonical[i], repo, now);
            assert(plan_view(out@) =~= before + turn_part(c, i as int));
        } else {
            assert(turn_part(c, i as int) =~= Seq::empty());
            assert(plan_view(out@) =~= before + turn_part(c, i as int));
        }
        assert(before + turn_part(c, i as int) =~= was + (turns_part(c, i as nat) + turn_part(
            c,
            i as int,
        )));
    }
}

fn add_decision(
    out: &mut Vec<Mutation>,
    s: &CanonicalSession,
    cand: &Candidate,
    now: i64,
    started_ms: i64,
    session_id: NodeId,
    repo: Option<&str>,
    canonical: &Vec<Vec<String>>,
    Ghost(c): Ghost<SessionContext>,
)
    requires
        c.session == s@,
        c.now == now,
        c.repo == crate::coderepo::slice_opt(repo),
        c.canonical == string_lists(canonical@),
        canonical_fits(*s, canonical@),
        started_ms == started(c),
        session_id == session_node_id(c.session),
    ensures
        plan_view(final(out)@) == plan_view(old(out)@) + decision_part(c, cand@),
        hides(cand@),
{
    let ghost was = plan_view(out@);
    let t = redact::redact(cand.text.as_str());
    let node = make_decision_node(s, repo, cand, t.as_str(), started_ms, Ghost(c));
    let id = node.id;
    put(out, Mutation::Node(node));
    add_embed(out, id, t.as_str());
    add_edge(out, id, session_id, EdgeKind::DecidedIn);
    let i: usize = cand.turn_index;
    if i < s.turns.len() {
        assert(canonical@[i as int]@.len() == s.turns@[i as int].touched_files@.len());
        add_files(
            out,
            id,
            EdgeKind::Produced,
            &s.turns[i].touched_files,
            &canonical[i],
            repo,
            now,
        );
    }
    assert(plan_view(out@) =~= was + decision_part(c, cand@));
}

// ---------------------------------------------------------------------------
// Notes
// ---------------------------------------------------------------------------

/// The node of a note, for its redacted text.
pub open spec fn note_node(topic: Option<Seq<char>>, t: Seq<char>, now: i64) -> NodeV {
    let scope = match topic {
        Some(x) => x,
        None => "note"@,
    };
    NodeV {
        body: t,
        summary: model::summary_of(t),
        provenance: Some(
            ProvenanceV {
                source_tool: "mcp"@,
                extractor: "manual"@,
                confidence: F32_ONE,
                source_priority: 3,
                ..model::no_provenance()
            },
        ),
        ..model::new_node(
            NodeKind::Decision,
            "manual-note::"@ + scope + "::"@ + text_digest(t),
            text::first_chars(t, 80),
            now,
        )
    }
}

/// What is written for a note: nothing for a blank one.
pub open spec fn note_plan(topic: Option<Seq<char>>, note: Seq<char>, now: i64) -> Option<
    Seq<MutationV>,
> {
    if text::trimmed(note).len() == 0 {
        None
    } else {
        let t = redact::redacted(note);
        let node = note_node(topic, t, now);
        Some(seq![MutationV::Node(node), MutationV::Embed(node.id, t)])
    }
}

/// Plans what is written for a note; nothing where it is blank. The note is redacted before
/// anything is made of it.
pub fn plan_note(topic: Option<&str>, note: &str, now: i64) -> (r: Option<(NodeId, Vec<Mutation>)>)
    ensures
        match r {
            Some((id, plan)) => note_plan(crate::coderepo::slice_opt(topic), note@, now) == Some(
                plan_view(plan@),
            ) && id == note_node(
                crate::coderepo::slice_opt(topic),
                redact::redacted(note@),
                now,
            ).id && !redact::has_secret(redact::redacted(note@)),
            None => note_plan(crate::coderepo::slice_opt(topic), note@, now) is None,
        },
{
    if text::trim(&text::chars_of(note)).len() == 0 {
        return None;
    }
    let t = redact::redact(note);
    let mut identity = text::chars_of("manual-note::");
    match topic {
        Some(x) => text::append_str(&mut identity, x),
        None => text::append_str(&mut identity, "note"),
    }
    text::append_str(&mut identity, "::");
    text::append(&mut identity, &digest_text(t.as_str()));
    let identity = text::string_of(&identity);
    let label = text::string_of(&text::take(&text::chars_of(t.as_str()), 80));
    let summary = model::summarize(t.as_str());
    let mut p = Provenance::default();
    p.source_tool = model::owned("mcp");
    p.extractor = model::owned("manual");
    p.confidence = F32_ONE;
    p.source_priority = 3;
    let node = Node::new(NodeKind::Decision, identity.as_str(), label.as_str(), now);
    let node = node.with_body(t.as_str());
    let node = node.with_summary(summary.as_str());
    let node = node.with_provenance(p);
    assert(node@ == note_node(crate::coderepo::slice_opt(topic), t@, now));
    let id = node.id;
    let mut out: Vec<Mutation> = Vec::new();
    put(&mut out, Mutation::Node(node));
    put(&mut out, Mutation::Embed(id, t));
    assert(plan_view(out@) =~= seq![
        MutationV::Node(note_node(crate::coderepo::slice_opt(topic), t@, now)),
        MutationV::Embed(id, t@),
    ]);
    Some((id, out))
}

// ---------------------------------------------------------------------------
// Repositories
// ---------------------------------------------------------------------------

/// What is known of a repository's history: the short id of its head, and its commits.
#[verifier::ext_equal]
pub struct HistoryV {
    pub head_short: Option<Seq<char>>,
    pub commits: Seq<CommitV>,
}

/// The view of a history.
pub open spec fn history_view(h: Option<&History>) -> Option<HistoryV> {
    match h {
        Some(x) => Some(
            HistoryV {
                head_short: match x.head {
                    Some(o) => Some(text::first_chars(o@, 8)),
                    None => None,
                },
                commits: git::commit_views(x.commits@),
            },
        ),
        None => None,
    }
}

/// What a repository is written with: its scan, its canonical root, its history, the path of
/// the root below the working tree, and the time.
pub struct RepoContext {
    pub scan: RepoScanV,
    pub root: Seq<char>,
    pub history: Option<HistoryV>,
    pub prefix: Seq<char>,
    pub now: i64,
}

/// The id of a repository.
pub open spec fn repo_id(root: Seq<char>) -> NodeId {
    model::id_of(NodeKind::Repo, root)
}

/// The node of a scanned repository, stamped with its head where it has one.
pub open spec fn scanned_repo_node(c: RepoContext) -> NodeV {
    let plain = repo_node(c.root, c.scan.repo_label, c.now);
    match c.history {
        Some(h) => match h.head_short {
            Some(head) => NodeV { attrs: plain.attrs.insert("commit"@, head), ..plain },
            None => plain,
        },
        None => plain,
    }
}

/// The frameworks that a repository depends on.
pub open spec fn frameworks_part(root: Seq<char>, names: Seq<Seq<char>>, now: i64) -> Seq<MutationV>
    decreases names.len(),
{
    if names.len() == 0 {
        Seq::empty()
    } else {
        let node = model::new_node(NodeKind::Framework, names.last(), names.last(), now);
        frameworks_part(root, names.drop_last(), now) + seq![
            MutationV::Node(node),
            MutationV::Edge(model::new_edge(repo_id(root), node.id, EdgeKind::DependsOn)),
        ]
    }
}

/// The node of a symbol.
pub open spec fn symbol_node(root: Seq<char>, rel: Seq<char>, sym: SymbolV, now: i64) -> NodeV {
    NodeV {
        attrs: Map::empty().insert("kind"@, sym.kind).insert("file"@, rel),
        ..model::new_node(
            NodeKind::Symbol,
            file_identity(root, rel).push('\u{1}') + sym.kind.push('\u{1}') + sym.name,
            sym.name,
            now,
        )
    }
}

/// The symbols that a file defines.
pub open spec fn symbols_part(root: Seq<char>, rel: Seq<char>, syms: Seq<SymbolV>, now: i64) -> Seq<
    MutationV,
>
    decreases syms.len(),
{
    if syms.len() == 0 {
        Seq::empty()
    } else {
        let node = symbol_node(root, rel, syms.last(), now);
        symbols_part(root, rel, syms.drop_last(), now) + seq![
            MutationV::Node(node),
            MutationV::Edge(
                model::new_edge(file_node(root, rel, now).id, node.id, EdgeKind::Defines),
            ),
            MutationV::Embed(node.id, syms.last().name),
        ]
    }
}

/// The names of symbols.
pub open spec fn symbol_names(syms: Seq<SymbolV>) -> Seq<Seq<char>> {
    syms.map_values(|s: SymbolV| s.name)
}

/// A file with its symbols.
pub open spec fn scanned_file_part(root: Seq<char>, rel: Seq<char>, syms: Seq<SymbolV>, now: i64) -> Seq<
    MutationV,
> {
    let node = file_node(root, rel, now);
    seq![
        MutationV::Node(node),
        MutationV::Edge(model::new_edge(repo_id(root), node.id, EdgeKind::Contains)),
        MutationV::Embed(node.id, rel.push(' ') + text::joined(symbol_names(syms), " "@)),
    ] + symbols_part(root, rel, syms, now)
}

/// The scanned files.
pub open spec fn scanned_files_part(
    root: Seq<char>,
    files: Seq<(Seq<char>, Seq<SymbolV>)>,
    now: i64,
) -> Seq<MutationV>
    decreases files.len(),
{
    if files.len() == 0 {
        Seq::empty()
    } else {
        scanned_files_part(root, files.drop_last(), now) + scanned_file_part(
            root,
            files.last().0,
            files.last().1,
            now,
        )
    }
}

/// The node of a commit; its summary and author are redacted.
pub open spec fn commit_node(k: CommitV) -> NodeV {
    NodeV {
        body: redact::redacted(k.summary),
        attrs: Map::empty().insert("oid"@, k.oid).insert("author"@, redact::redacted(k.author)),
        provenance: Some(
            ProvenanceV {
                source_tool: "git"@,
                commit: Some(k.oid),
                source_priority: 3,
                confidence: F32_ONE,
                extractor: "repo-git-v1"@,
                ..model::no_provenance()
            },
        ),
        ..model::new_node(NodeKind::Commit, k.oid, k.short, k.time_ms)
    }
}

/// A path of the working tree as a path below the scanned root; nothing where it lies outside.
pub open spec fn below_prefix(p: Seq<char>, prefix: Seq<char>) -> Option<Seq<char>> {
    if text::has_prefix(p, prefix) {
        Some(p.skip(prefix.len() as int))
    } else {
        None
    }
}

/// The files on disk below the scanned root that a commit changed.
pub open spec fn changed_part(c: RepoContext, commit: NodeId, changed: Seq<Seq<char>>) -> Seq<
    MutationV,
>
    decreases changed.len(),
{
    if changed.len() == 0 {
        Seq::empty()
    } else {
        let before = changed_part(c, commit, changed.drop_last());
        match below_prefix(changed.last(), c.prefix) {
            Some(rel) if c.scan.all_files.contains(rel) => {
                let file = file_node(c.root, rel, c.now);
                before + seq![
                    MutationV::Node(file),
                    MutationV::Edge(model::new_edge(file.id, commit, EdgeKind::ChangedBy)),
                ]
            },
            _ => before,
        }
    }
}

/// A commit: its node, the edge from its repository, and the files that it changed.
pub open spec fn commit_part(c: RepoContext, k: CommitV) -> Seq<MutationV> {
    let node = commit_node(k);
    seq![
        MutationV::Node(node),
        MutationV::Edge(model::new_edge(repo_id(c.root), node.id, EdgeKind::Contains)),
    ] + changed_part(c, node.id, k.changed)
}

/// The commits.
pub open spec fn commits_part(c: RepoContext, commits: Seq<CommitV>) -> Seq<MutationV>
    decreases commits.len(),
{
    if commits.len() == 0 {
        Seq::empty()
    } else {
        commits_part(c, commits.drop_last()) + commit_part(c, commits.last())
    }
}

/// All that is written for a repository.
pub open spec fn repo_plan(c: RepoContext) -> Seq<MutationV> {
    seq![MutationV::Node(scanned_repo_node(c))] + frameworks_part(
        c.root,
        c.scan.frameworks,
        c.now,
    ) + scanned_files_part(c.root, c.scan.files, c.now) + (match c.history {
        Some(h) => commits_part(c, h.commits),
        None => Seq::empty(),
    })
}

/// The prefix of git's paths that leads to the scanned root, from the root's path below the
/// working tree: with forward slashes and one at the end, or empty at the top.
pub open spec fn git_prefix(rel: Seq<char>) -> Seq<char> {
    if rel.len() == 0 {
        rel
    } else {
        paths::forward(rel).push('/')
    }
}

/// The prefix of git's paths that leads to the scanned root.
pub fn git_prefix_of(rel: &str) -> (r: String)
    ensures
        r@ == git_prefix(rel@),
{
    let f = paths::forward_slashes(rel);
    assert(f@.len() == rel@.len());
    let mut out = text::chars_of(f.as_str());
    if out.len() != 0 {
        out.push('/');
    }
    assert(out@ =~= git_prefix(rel@));
    text::string_of(&out)
}

fn add_frameworks(out: &mut Vec<Mutation>, root: &str, repo: NodeId, names: &Vec<String>, now: i64)
    requires
        repo == repo_id(root@),
    ensures
        plan_view(final(out)@) == plan_view(old(out)@) + frameworks_part(
            root@,
            text::string_views(names@),
            now,
        ),
{
    let ghost was = plan_view(out@);
    let ghost ns = text::string_views(names@);
    let n: usize = names.len();
    assert(ns.take(0) =~= Seq::empty());
    assert(was + Seq::empty() =~= was);
    for i in 0..n
        invariant
            n == names@.len(),
            ns == text::string_views(names@),
            repo == repo_id(root@),
            plan_view(out@) == was + frameworks_part(root@, ns.take(i as int), now),
    {
        assert(ns.take(i + 1).drop_last() =~= ns.take(i as int));
        assert(ns.take(i + 1).last() == names@[i as int]@);
        let name = names[i].as_str();
        let node = Node::new(NodeKind::Framework, name, name, now);
        let id = node.id;
        put(out, Mutation::Node(node));
        add_edge(out, repo, id, EdgeKind::DependsOn);
        assert(plan_view(out@) =~= was + frameworks_part(root@, ns.take(i + 1), now));
    }
    assert(ns.take(n as int) =~= ns);
}

fn make_symbol_node(root: &str, rel: &str, sym: &Symbol, now: i64) -> (r: Node)
    ensures
        r@ == symbol_node(root@, rel@, sym@, now),
{
    let mut identity = text::chars_of(file_identity_of(root, rel).as_str());
    identity.push('\u{1}');
    text::append_str(&mut identity, sym.kind);
    identity.push('\u{1}');
    text::append_str(&mut identity, sym.name.as_str());
    assert(identity@ =~= file_identity(root@, rel@).push('\u{1}') + sym.kind@.push('\u{1}')
        + sym.name@);
    let identity = text::string_of(&identity);
    let node = Node::new(NodeKind::Symbol, identity.as_str(), sym.name.as_str(), now);
    let node = node.attr("kind", sym.kind);
    node.attr("file", rel)
}

fn add_symbols(out: &mut Vec<Mutation>, root: &str, rel: &str, file_id: NodeId, syms: &Vec<Symbol>, now: i64)
    requires
        file_id == file_node(root@, rel@, now).id,
    ensures
        plan_view(final(out)@) == plan_view(old(out)@) + symbols_part(
            root@,
            rel@,
            crate::coderepo::symbol_views(syms@),
            now,
        ),
{
    let ghost was = plan_view(out@);
    let ghost ss = crate::coderepo::symbol_views(syms@);
    let n: usize = syms.len();
    assert(ss.take(0) =~= Seq::empty());
    assert(was + Seq::empty() =~= was);
    for i in 0..n
        invariant
            n == syms@.len(),
            ss == crate::coderepo::symbol_views(syms@),
            file_id == file_node(root@, rel@, now).id,
            plan_view(out@) == was + symbols_part(root@, rel@, ss.take(i as int), now),
    {
        assert(ss.take(i + 1).drop_last() =~= ss.take(i as int));
        assert(ss.take(i + 1).last() == syms@[i as int]@);
        let sym = &syms[i];
        let node = make_symbol_node(root, rel, sym, now);
        let id = node.id;
        put(out, Mutation::Node(node));
        add_edge(out, file_id, id, EdgeKind::Defines);
        put(out, Mutation::Embed(id, sym.name.clone()));
        assert(plan_view(out@) =~= was + symbols_part(root@, rel@, ss.take(i + 1), now));
    }
    assert(ss.take(n as int) =~= ss);
}

fn file_text(rel: &str, syms: &Vec<Symbol>) -> (r: String)
    ensures
        r@ == rel@.push(' ') + text::joined(
            symbol_names(crate::coderepo::symbol_views(syms@)),
            " "@,
        ),
{
    let mut names: Vec<Vec<char>> = Vec::new();
    let n: usize = syms.len();
    for i in 0..n
        invariant
            n == syms@.len(),
            names@.len() == i,
            forall|j: int| 0 <= j < i ==> (#[trigger] names@[j])@ == syms@[j].name@,
    {
        names.push(text::chars_of(syms[i].name.as_str()));
    }
    assert(text::views(names@) =~= symbol_names(crate::coderepo::symbol_views(syms@)));
    let mut out = text::chars_of(rel);
    out.push(' ');
    let sep = text::chars_of(" ");
    text::append(&mut out, &text::join(&names, &sep));
    text::string_of(&out)
}

fn add_scanned_files(out: &mut Vec<Mutation>, root: &str, repo: NodeId, files: &Vec<(String, Vec<Symbol>)>, now: i64)
    requires
        repo == repo_id(root@),
    ensures
        plan_view(final(out)@) == plan_view(old(out)@) + scanned_files_part(
            root@,
            crate::coderepo::file_views(files@),
            now,
        ),
{
    let ghost was = plan_view(out@);
    let ghost fs = crate::coderepo::file_views(files@);
    let n: usize = files.len();
    assert(fs.take(0) =~= Seq::empty());
    assert(was + Seq::empty() =~= was);
    for i in 0..n
        invariant
            n == files@.len(),
            fs == crate::coderepo::file_views(files@),
            repo == repo_id(root@),
            plan_view(out@) == was + scanned_files_part(root@, fs.take(i as int), now),
    {
        assert(fs.take(i + 1).drop_last() =~= fs.take(i as int));
        let ghost before = plan_view(out@);
        let rel = files[i].0.as_str();
        let syms = &files[i].1;
        assert(fs[i as int] == (rel@, crate::coderepo::symbol_views(syms@)));
        assert(fs.take(i + 1).last() == fs[i as int]);
        let node = make_file_node(root, rel, now);
        let id = node.id;
        put(out, Mutation::Node(node));
        add_edge(out, repo, id, EdgeKind::Contains);
        put(out, Mutation::Embed(id, file_text(rel, syms)));
        add_symbols(out, root, rel, id, syms, now);
        assert(plan_view(out@) =~= before + scanned_file_part(
            root@,
            rel@,
            crate::coderepo::symbol_views(syms@),
            now,
        ));
        assert(plan_view(out@) =~= was + scanned_files_part(root@, fs.take(i + 1), now));
    }
    assert(fs.take(n as int) =~= fs);
}

fn make_commit_node(k: &CommitMeta) -> (r: Node)
    ensures
        r@ == commit_node(k@),
        !redact::has_secret(r@.body),
{
    let summary = redact::redact(k.summary.as_str());
    let author = redact::redact(k.author.as_str());
    let mut p = Provenance::default();
    p.source_tool = model::owned("git");
    p.commit = Some(k.oid.clone());
    p.source_priority = 3;
    p.confidence = F32_ONE;
    p.extractor = model::owned("repo-git-v1");
    let node = Node::new(NodeKind::Commit, k.oid.as_str(), k.short.as_str(), k.time_ms);
    let node = node.with_body(summary.as_str());
    let node = node.attr("oid", k.oid.as_str());
    let node = node.attr("author", author.as_str());
    node.with_provenance(p)
}

fn strip_git_prefix(p: &str, prefix: &str) -> (r: Option<String>)
    ensures
        model::opt(r) == below_prefix(p@, prefix@),
{
    let s = text::chars_of(p);
    if text::starts_with(&s, prefix) {
        let k: usize = text::chars_of(prefix).len();
        let out = text::part(&s, k, s.len());
        assert(out@ =~= s@.skip(k as int));
        Some(text::string_of(&out))
    } else {
        None
    }
}

fn add_changed(
    out: &mut Vec<Mutation>,
    root: &str,
    prefix: &str,
    now: i64,
    scanned: &TextSet,
    commit: NodeId,
    changed: &Vec<String>,
    Ghost(c): Ghost<RepoContext>,
)
    requires
        c.root == root@,
        c.prefix == prefix@,
        c.now == now,
        sorted::sorted_once(scanned@, c.scan.all_files),
    ensures
        plan_view(final(out)@) == plan_view(old(out)@) + changed_part(
            c,
            commit,
            text::string_views(changed@),
        ),
{
    let ghost was = plan_view(out@);
    let ghost cs = text::string_views(changed@);
    let n: usize = changed.len();
    assert(cs.take(0) =~= Seq::empty());
    assert(was + Seq::empty() =~= was);
    for i in 0..n
        invariant
            n == changed@.len(),
            cs == text::string_views(changed@),
            c.root == root@,
            c.prefix == prefix@,
            c.now == now,
            sorted::sorted_once(scanned@, c.scan.all_files),
            plan_view(out@) == was + changed_part(c, commit, cs.take(i as int)),
    {
        assert(cs.take(i + 1).drop_last() =~= cs.take(i as int));
        assert(cs.take(i + 1).last() == changed@[i as int]@);
        match strip_git_prefix(changed[i].as_str(), prefix) {
            Some(rel) => {
                if scanned.contains(rel.as_str()) {
                    let node = make_file_node(root, rel.as_str(), now);
                    let id = node.id;
                    put(out, Mutation::Node(node));
                    add_edge(out, id, commit, EdgeKind::ChangedBy);
                    assert(plan_view(out@) =~= was + changed_part(c, commit, cs.take(i + 1)));
                }
            },
            None => {},
        }
    }
    assert(cs.take(n as int) =~= cs);
}

fn add_commits(
    out: &mut Vec<Mutation>,
    root: &str,
    repo: NodeId,
    prefix: &str,
    now: i64,
    scanned: &TextSet,
    commits: &Vec<CommitMeta>,
    Ghost(c): Ghost<RepoContext>,
)
    requires
        repo == repo_id(root@),
        c.root == root@,
        c.prefix == prefix@,
        c.now == now,
        sorted::sorted_once(scanned@, c.scan.all_files),
    ensures
        plan_view(final(out)@) == plan_view(old(out)@) + commits_part(
            c,
            git::commit_views(commits@),
        ),
        forall|i: int|
            0 <= i < commits@.len() ==> !redact::has_secret(
                commit_node((#[trigger] commits@[i])@).body,
            ),
{
    let ghost was = plan_view(out@);
    let ghost ks = git::commit_views(commits@);
    let n: usize = commits.len();
    assert(ks.take(0) =~= Seq::empty());
    assert(was + Seq::empty() =~= was);
    for i in 0..n
        invariant
            n == commits@.len(),
            ks == git::commit_views(commits@),
            repo == repo_id(root@),
            c.root == root@,
            c.prefix == prefix@,
            c.now == now,
            sorted::sorted_once(scanned@, c.scan.all_files),
            plan_view(out@) == was + commits_part(c, ks.take(i as int)),
            forall|j: int|
                0 <= j < i ==> !redact::has_secret(commit_node((#[trigger] commits@[j])@).body),
    {
        assert(ks.take(i + 1).drop_last() =~= ks.take(i as int));
        assert(ks.take(i + 1).last() == commits@[i as int]@);
        let ghost before = plan_view(out@);
        let node = make_commit_node(&commits[i]);
        let id = node.id;
        put(out, Mutation::Node(node));
        add_edge(out, repo, id, EdgeKind::Contains);
        add_changed(out, root, prefix, now, scanned, id, &commits[i].changed, Ghost(c));
        assert(plan_view(out@) =~= before + commit_part(c, commits@[i as int]@));
        assert(plan_view(out@) =~= was + commits_part(c, ks.take(i + 1)));
    }
    assert(ks.take(n as int) =~= ks);
}

/// Plans what is written for a repository. `prefix` leads from the top of the working tree to
/// the scanned root.
pub fn plan_repo(
    scan: &RepoScan,
    root: &str,
    history: Option<&History>,
    prefix: &str,
    now: i64,
) -> (r: Vec<Mutation>)
    ensures
        plan_view(r@) == repo_plan(
            RepoContext {
                scan: scan@,
                root: root@,
                history: history_view(history),
                prefix: prefix@,
                now,
            },
        ),
        history matches Some(h) ==> forall|i: int|
            0 <= i < h.commits@.len() ==> !redact::has_secret(
                commit_node((#[trigger] h.commits@[i])@).body,
            ),
{
    let ghost c = RepoContext {
        scan: scan@,
        root: root@,
        history: history_view(history),
        prefix: prefix@,
        now,
    };
    let node = Node::new(NodeKind::Repo, root, scan.repo_label.as_str(), now);
    let node = node.attr("path", root);
    let head = match history {
        Some(h) => h.head_short(),
        None => None,
    };
    let node = match head {
        Some(h) => node.attr("commit", h.as_str()),
        None => node,
    };
    assert(node@ == scanned_repo_node(c));
    let repo = node.id;
    let mut out: Vec<Mutation> = Vec::new();
    put(&mut out, Mutation::Node(node));
    assert(plan_view(out@) =~= seq![MutationV::Node(scanned_repo_node(c))]);
    add_frameworks(&mut out, root, repo, &scan.frameworks, now);
    add_scanned_files(&mut out, root, repo, &scan.files, now);
    let ghost before = plan_view(out@);
    match history {
        Some(h) => {
            let scanned = TextSet::of(&scan.all_files);
            add_commits(&mut out, root, repo, prefix, now, &scanned, &h.commits, Ghost(c));
        },
        None => {
            assert(before + Seq::empty() =~= before);
        },
    }
    out
}

// ---------------------------------------------------------------------------
// Laws
// ---------------------------------------------------------------------------

/// What a mutation is about, apart from times and texts that go with them.
pub enum Subject {
    Node(NodeId),
    Edge(NodeId, NodeId, EdgeKind),
    Embed(NodeId, Seq<char>),
}

/// What a mutation is about.
pub open spec fn subject(m: MutationV) -> Subject {
    match m {
        MutationV::Node(n) => Subject::Node(n.id),
        MutationV::Edge(e) => Subject::Edge(e.from, e.to, e.kind),
        MutationV::Embed(id, t) => Subject::Embed(id, t),
    }
}

/// What a plan is about.
pub open spec fn subjects(plan: Seq<MutationV>) -> Seq<Subject> {
    plan.map_values(|m: MutationV| subject(m))
}

proof fn lemma_subjects_add(a: Seq<MutationV>, b: Seq<MutationV>)
    ensures
        subjects(a + b) == subjects(a) + subjects(b),
{
    assert(subjects(a + b) =~= subjects(a) + subjects(b));
}

proof fn lemma_files_subjects(
    owner: NodeId,
    kind: EdgeKind,
    touched: Seq<Seq<char>>,
    canonical: Seq<Seq<char>>,
    repo: Option<Seq<char>>,
    a: i64,
    b: i64,
)
    ensures
        subjects(files_part(owner, kind, touched, canonical, repo, a)) == subjects(
            files_part(owner, kind, touched, canonical, repo, b),
        ),
    decreases touched.len(),
{
    if touched.len() != 0 {
        let i = touched.len() - 1;
        let rel = paths::relative(repo, touched[i], canonical[i]);
        let (fa, fb) = (file_node(repo_or_empty(repo), rel, a), file_node(repo_or_empty(repo), rel, b));
        let ta = seq![
            MutationV::Node(fa),
            MutationV::Edge(model::new_edge(owner, fa.id, kind)),
        ];
        let tb = seq![
            MutationV::Node(fb),
            MutationV::Edge(model::new_edge(owner, fb.id, kind)),
        ];
        let init = touched.drop_last();
        lemma_files_subjects(owner, kind, init, canonical, repo, a, b);
        lemma_subjects_add(files_part(owner, kind, init, canonical, repo, a), ta);
        lemma_subjects_add(files_part(owner, kind, init, canonical, repo, b), tb);
        assert(subjects(ta) =~= subjects(tb));
    }
}

proof fn lemma_turn_subjects(c: SessionContext, d: SessionContext, i: int)
    requires
        d == (SessionContext { now: d.now, ..c }),
    ensures
        subjects(turn_part(c, i)) == subjects(turn_part(d, i)),
{
    let t = c.session.turns[i];
    if is_kept(t) {
        let (n, m) = (turn_node(c, t), turn_node(d, t));
        let edge = seq![
            MutationV::Edge(model::new_edge(session_node_id(c.session), n.id, EdgeKind::Contains)),
        ];
        let (hc, hd) = (seq![MutationV::Node(n)], seq![MutationV::Node(m)]);
        let e = embed_part(n.id, t.text);
        let fc = files_part(n.id, EdgeKind::Touches, t.touched_files, c.canonical[i], c.repo, c.now);
        let fd = files_part(n.id, EdgeKind::Touches, t.touched_files, c.canonical[i], c.repo, d.now);
        lemma_files_subjects(
            n.id,
            EdgeKind::Touches,
            t.touched_files,
            c.canonical[i],
            c.repo,
            c.now,
            d.now,
        );
        assert(subjects(hc) =~= subjects(hd));
        lemma_subjects_add(hc, e);
        lemma_subjects_add(hd, e);
        lemma_subjects_add(hc + e, edge);
        lemma_subjects_add(hd + e, edge);
        lemma_subjects_add(hc + e + edge, fc);
        lemma_subjects_add(hd + e + edge, fd);
    }
}

proof fn lemma_turns_subjects(c: SessionContext, d: SessionContext, n: nat)
    requires
        d == (SessionContext { now: d.now, ..c }),
    ensures
        subjects(turns_part(c, n)) == subjects(turns_part(d, n)),
    decreases n,
{
    if n > 0 {
        lemma_turns_subjects(c, d, (n - 1) as nat);
        lemma_turn_subjects(c, d, n - 1);
        lemma_subjects_add(turns_part(c, (n - 1) as nat), turn_part(c, n - 1));
        lemma_subjects_add(turns_part(d, (n - 1) as nat), turn_part(d, n - 1));
    }
}

proof fn lemma_decision_subjects(c: SessionContext, d: SessionContext, cand: CandidateV)
    requires
        d == (SessionContext { now: d.now, ..c }),
    ensures
        subjects(decision_part(c, cand)) == subjects(decision_part(d, cand)),
{
    let (n, m) = (decision_node(c, cand), decision_node(d, cand));
    let i = cand.turn_index as int;
    let edge = seq![
        MutationV::Edge(model::new_edge(n.id, session_node_id(c.session), EdgeKind::DecidedIn)),
    ];
    let (hc, hd) = (seq![MutationV::Node(n)], seq![MutationV::Node(m)]);
    let e = embed_part(n.id, redact::redacted(cand.text));
    let files = |now: i64|
        if i < c.session.turns.len() {
            files_part(
                n.id,
                EdgeKind::Produced,
                c.session.turns[i].touched_files,
                c.canonical[i],
                c.repo,
                now,
            )
        } else {
            Seq::empty()
        };
    if i < c.session.turns.len() {
        lemma_files_subjects(
            n.id,
            EdgeKind::Produced,
            c.session.turns[i].touched_files,
            c.canonical[i],
            c.repo,
            c.now,
            d.now,
        );
    }
    assert(subjects(hc) =~= subjects(hd));
    lemma_subjects_add(hc, e);
    lemma_subjects_add(hd, e);
    lemma_subjects_add(hc + e, edge);
    lemma_subjects_add(hd + e, edge);
    lemma_subjects_add(hc + e + edge, files(c.now));
    lemma_subjects_add(hd + e + edge, files(d.now));
}

proof fn lemma_decisions_subjects(c: SessionContext, d: SessionContext, cands: Seq<CandidateV>)
    requires
        d == (SessionContext { now: d.now, ..c }),
    ensures
        subjects(decisions_part(c, cands)) == subjects(decisions_part(d, cands)),
    decreases cands.len(),
{
    if cands.len() != 0 {
        lemma_decisions_subjects(c, d, cands.drop_last());
        lemma_decision_subjects(c, d, cands.last());
        lemma_subjects_add(decisions_part(c, cands.drop_last()), decision_part(c, cands.last()));
        lemma_subjects_add(decisions_part(d, cands.drop_last()), decision_part(d, cands.last()));
    }
}

/// Ingesting a session again writes to the same nodes, edges and embeddings, whenever it is
/// done: identity comes from content, never from the time.
pub proof fn ingesting_again_is_the_same(c: SessionContext, later: i64, cands: Seq<CandidateV>)
    ensures
        subjects(session_plan(c, cands)) == subjects(
            session_plan(SessionContext { now: later, ..c }, cands),
        ),
{
    let d = SessionContext { now: later, ..c };
    let id = session_node_id(c.session);
    let e = embed_part(id, intro(c.session.turns));
    let (hc, hd) = (seq![MutationV::Node(session_node(c))], seq![MutationV::Node(session_node(d))]);
    let repo = |now: i64|
        match c.repo {
            Some(repo) => seq![
                MutationV::Node(repo_node(repo, paths::base_of(repo), now)),
                MutationV::Edge(
                    model::new_edge(id, model::id_of(NodeKind::Repo, repo), EdgeKind::DerivedFrom),
                ),
            ],
            None => Seq::empty(),
        };
    assert(subjects(hc) =~= subjects(hd));
    assert(subjects(repo(c.now)) =~= subjects(repo(later)));
    lemma_subjects_add(hc, e);
    lemma_subjects_add(hd, e);
    lemma_subjects_add(hc + e, repo(c.now));
    lemma_subjects_add(hd + e, repo(later));
    assert(session_head(c) == hc + e + repo(c.now));
    assert(session_head(d) == hd + e + repo(later));
    lemma_turns_subjects(c, d, c.session.turns.len());
    lemma_decisions_subjects(c, d, cands);
    lemma_subjects_add(session_head(c), turns_part(c, c.session.turns.len()));
    lemma_subjects_add(session_head(d), turns_part(d, c.session.turns.len()));
    lemma_subjects_add(
        session_head(c) + turns_part(c, c.session.turns.len()),
        decisions_part(c, cands),
    );
    lemma_subjects_add(
        session_head(d) + turns_part(d, c.session.turns.len()),
        decisions_part(d, cands),
    );
}

proof fn lemma_frameworks_subjects(root: Seq<char>, names: Seq<Seq<char>>, a: i64, b: i64)
    ensures
        subjects(frameworks_part(root, names, a)) == subjects(frameworks_part(root, names, b)),
    decreases names.len(),
{
    if names.len() != 0 {
        let init = names.drop_last();
        let na = model::new_node(NodeKind::Framework, names.last(), names.last(), a);
        let nb = model::new_node(NodeKind::Framework, names.last(), names.last(), b);
        let ta = seq![
            MutationV::Node(na),
            MutationV::Edge(model::new_edge(repo_id(root), na.id, EdgeKind::DependsOn)),
        ];
        let tb = seq![
            MutationV::Node(nb),
            MutationV::Edge(model::new_edge(repo_id(root), nb.id, EdgeKind::DependsOn)),
        ];
        lemma_frameworks_subjects(root, init, a, b);
        lemma_subjects_add(frameworks_part(root, init, a), ta);
        lemma_subjects_add(frameworks_part(root, init, b), tb);
        assert(subjects(ta) =~= subjects(tb));
    }
}

proof fn lemma_symbols_subjects(root: Seq<char>, rel: Seq<char>, syms: Seq<SymbolV>, a: i64, b: i64)
    ensures
        subjects(symbols_part(root, rel, syms, a)) == subjects(symbols_part(root, rel, syms, b)),
    decreases syms.len(),
{
    if syms.len() != 0 {
        let init = syms.drop_last();
        let na = symbol_node(root, rel, syms.last(), a);
        let nb = symbol_node(root, rel, syms.last(), b);
        let ta = seq![
            MutationV::Node(na),
            MutationV::Edge(
                model::new_edge(file_node(root, rel, a).id, na.id, EdgeKind::Defines),
            ),
            MutationV::Embed(na.id, syms.last().name),
        ];
        let tb = seq![
            MutationV::Node(nb),
            MutationV::Edge(
                model::new_edge(file_node(root, rel, b).id, nb.id, EdgeKind::Defines),
            ),
            MutationV::Embed(nb.id, syms.last().name),
        ];
        lemma_symbols_subjects(root, rel, init, a, b);
        lemma_subjects_add(symbols_part(root, rel, init, a), ta);
        lemma_subjects_add(symbols_part(root, rel, init, b), tb);
        assert(subjects(ta) =~= subjects(tb));
    }
}

proof fn lemma_scanned_file_subjects(
    root: Seq<char>,
    rel: Seq<char>,
    syms: Seq<SymbolV>,
    a: i64,
    b: i64,
)
    ensures
        subjects(scanned_file_part(root, rel, syms, a)) == subjects(
            scanned_file_part(root, rel, syms, b),
        ),
{
    let (na, nb) = (file_node(root, rel, a), file_node(root, rel, b));
    let told = rel.push(' ') + text::joined(symbol_names(syms), " "@);
    let ha = seq![
        MutationV::Node(na),
        MutationV::Edge(model::new_edge(repo_id(root), na.id, EdgeKind::Contains)),
        MutationV::Embed(na.id, told),
    ];
    let hb = seq![
        MutationV::Node(nb),
        MutationV::Edge(model::new_edge(repo_id(root), nb.id, EdgeKind::Contains)),
        MutationV::Embed(nb.id, told),
    ];
    assert(subjects(ha) =~= subjects(hb));
    lemma_symbols_subjects(root, rel, syms, a, b);
    lemma_subjects_add(ha, symbols_part(root, rel, syms, a));
    lemma_subjects_add(hb, symbols_part(root, rel, syms, b));
}

proof fn lemma_scanned_files_subjects(
    root: Seq<char>,
    files: Seq<(Seq<char>, Seq<SymbolV>)>,
    a: i64,
    b: i64,
)
    ensures
        subjects(scanned_files_part(root, files, a)) == subjects(
            scanned_files_part(root, files, b),
        ),
    decreases files.len(),
{
    if files.len() != 0 {
        let init = files.drop_last();
        let (rel, syms) = files.last();
        lemma_scanned_files_subjects(root, init, a, b);
        lemma_scanned_file_subjects(root, rel, syms, a, b);
        lemma_subjects_add(
            scanned_files_part(root, init, a),
            scanned_file_part(root, rel, syms, a),
        );
        lemma_subjects_add(
            scanned_files_part(root, init, b),
            scanned_file_part(root, rel, syms, b),
        );
    }
}

proof fn lemma_changed_subjects(
    c: RepoContext,
    d: RepoContext,
    commit: NodeId,
    changed: Seq<Seq<char>>,
)
    requires
        d == (RepoContext { now: d.now, ..c }),
    ensures
        subjects(changed_part(c, commit, changed)) == subjects(changed_part(d, commit, changed)),
    decreases changed.len(),
{
    if changed.len() != 0 {
        let init = changed.drop_last();
        let rel = match below_prefix(changed.last(), c.prefix) {
            Some(rel) => rel,
            None => Seq::empty(),
        };
        let (fc, fd) = (file_node(c.root, rel, c.now), file_node(c.root, rel, d.now));
        let tc = seq![
            MutationV::Node(fc),
            MutationV::Edge(model::new_edge(fc.id, commit, EdgeKind::ChangedBy)),
        ];
        let td = seq![
            MutationV::Node(fd),
            MutationV::Edge(model::new_edge(fd.id, commit, EdgeKind::ChangedBy)),
        ];
        lemma_changed_subjects(c, d, commit, init);
        lemma_subjects_add(changed_part(c, commit, init), tc);
        lemma_subjects_add(changed_part(d, commit, init), td);
        assert(subjects(tc) =~= subjects(td));
    }
}

proof fn lemma_commits_subjects(c: RepoContext, d: RepoContext, commits: Seq<CommitV>)
    requires
        d == (RepoContext { now: d.now, ..c }),
    ensures
        subjects(commits_part(c, commits)) == subjects(commits_part(d, commits)),
    decreases commits.len(),
{
    if commits.len() != 0 {
        let init = commits.drop_last();
        let k = commits.last();
        let node = commit_node(k);
        let head = seq![
            MutationV::Node(node),
            MutationV::Edge(model::new_edge(repo_id(c.root), node.id, EdgeKind::Contains)),
        ];
        lemma_commits_subjects(c, d, init);
        lemma_changed_subjects(c, d, node.id, k.changed);
        lemma_subjects_add(head, changed_part(c, node.id, k.changed));
        lemma_subjects_add(head, changed_part(d, node.id, k.changed));
        lemma_subjects_add(commits_part(c, init), commit_part(c, k));
        lemma_subjects_add(commits_part(d, init), commit_part(d, k));
    }
}

/// Scanning a repository again writes to the same nodes, edges and embeddings, whenever it is
/// done.
pub proof fn scanning_again_is_the_same(c: RepoContext, later: i64)
    ensures
        subjects(repo_plan(c)) == subjects(repo_plan(RepoContext { now: later, ..c })),
{
    let d = RepoContext { now: later, ..c };
    let (hc, hd) = (
        seq![MutationV::Node(scanned_repo_node(c))],
        seq![MutationV::Node(scanned_repo_node(d))],
    );
    let (wc, wd) = (
        frameworks_part(c.root, c.scan.frameworks, c.now),
        frameworks_part(c.root, c.scan.frameworks, later),
    );
    let (fc, fd) = (
        scanned_files_part(c.root, c.scan.files, c.now),
        scanned_files_part(c.root, c.scan.files, later),
    );
    let commits = match c.history {
        Some(h) => h.commits,
        None => Seq::empty(),
    };
    assert(subjects(hc) =~= subjects(hd));
    lemma_frameworks_subjects(c.root, c.scan.frameworks, c.now, later);
    lemma_scanned_files_subjects(c.root, c.scan.files, c.now, later);
    lemma_commits_subjects(c, d, commits);
    lemma_subjects_add(hc, wc);
    lemma_subjects_add(hd, wd);
    lemma_subjects_add(hc + wc, fc);
    lemma_subjects_add(hd + wd, fd);
    lemma_subjects_add(hc + wc + fc, commits_part(c, commits));
    lemma_subjects_add(hd + wd + fd, commits_part(d, commits));
    assert(repo_plan(c) == hc + wc + fc + commits_part(c, commits));
    assert(repo_plan(d) == hd + wd + fd + commits_part(d, commits));
}

proof fn lemma_contained_in_sum(a: Seq<MutationV>, b: Seq<MutationV>, m: MutationV)
    requires
        a.contains(m) || b.contains(m),
    ensures
        (a + b).contains(m),
{
    if a.contains(m) {
        let k = choose|k: int| 0 <= k < a.len() && a[k] == m;
        assert((a + b)[k] == m);
    } else {
        let k = choose|k: int| 0 <= k < b.len() && b[k] == m;
        assert((a + b)[a.len() + k] == m);
    }
}

#[verifier::spinoff_prover]
proof fn lemma_turn_is_there(c: SessionContext, n: nat, i: int, m: MutationV)
    requires
        0 <= i < n,
        turn_part(c, i).contains(m),
    ensures
        turns_part(c, n).contains(m),
    decreases n,
{
    if i < n - 1 {
        lemma_turn_is_there(c, (n - 1) as nat, i, m);
    }
    lemma_contained_in_sum(turns_part(c, (n - 1) as nat), turn_part(c, n - 1), m);
}

/// Every turn that is kept is written, contained in its session, with the session and the
/// commit as its provenance.
pub proof fn kept_turns_are_written(c: SessionContext, cands: Seq<CandidateV>, i: int)
    requires
        0 <= i < c.session.turns.len(),
        is_kept(c.session.turns[i]),
    ensures
        ({
            let n = turn_node(c, c.session.turns[i]);
            &&& session_plan(c, cands).contains(MutationV::Node(n))
            &&& session_plan(c, cands).contains(
                MutationV::Edge(
                    model::new_edge(session_node_id(c.session), n.id, EdgeKind::Contains),
                ),
            )
            &&& n.provenance matches Some(p) && p.native_session_id == Some(
                c.session.native_session_id,
            ) && p.commit == c.session.commit
        }),
{
    let t = c.session.turns[i];
    let n = turn_node(c, t);
    let part = turn_part(c, i);
    let node = MutationV::Node(n);
    let edge = MutationV::Edge(
        model::new_edge(session_node_id(c.session), n.id, EdgeKind::Contains),
    );
    let e = embed_part(n.id, t.text);
    assert(part[0] == node);
    assert(part[1 + e.len() as int] == edge);
    assert(part.contains(node) && part.contains(edge));
    let count = c.session.turns.len();
    lemma_turn_is_there(c, count, i, node);
    lemma_turn_is_there(c, count, i, edge);
    let (h, b) = (session_head(c), turns_part(c, count));
    let d = decisions_part(c, cands);
    let k = choose|k: int| 0 <= k < b.len() && b[k] == node;
    assert((h + b + d)[h.len() + k] == node);
    let l = choose|l: int| 0 <= l < b.len() && b[l] == edge;
    assert((h + b + d)[h.len() + l] == edge);
}

#[verifier::spinoff_prover]
proof fn lemma_decision_is_there(c: SessionContext, cands: Seq<CandidateV>, i: int, m: MutationV)
    requires
        0 <= i < cands.len(),
        decision_part(c, cands[i]).contains(m),
    ensures
        decisions_part(c, cands).contains(m),
    decreases cands.len(),
{
    let init = cands.drop_last();
    if i < init.len() {
        assert(init[i] == cands[i]);
        lemma_decision_is_there(c, init, i, m);
    }
    lemma_contained_in_sum(decisions_part(c, init), decision_part(c, cands.last()), m);
}

/// Every decision of a session is written with its provenance, the session and the commit that
/// it was made in, and with an edge to the session; its words are redacted first.
pub proof fn decisions_are_anchored(c: SessionContext, cands: Seq<CandidateV>, i: int)
    requires
        0 <= i < cands.len(),
    ensures
        ({
            let n = decision_node(c, cands[i]);
            &&& session_plan(c, cands).contains(MutationV::Node(n))
            &&& session_plan(c, cands).contains(
                MutationV::Edge(
                    model::new_edge(n.id, session_node_id(c.session), EdgeKind::DecidedIn),
                ),
            )
            &&& n.provenance matches Some(p) && p.native_session_id == Some(
                c.session.native_session_id,
            ) && p.commit == c.session.commit
            &&& n.label == redact::redacted(cands[i].text)
        }),
{
    let n = decision_node(c, cands[i]);
    let part = decision_part(c, cands[i]);
    let node = MutationV::Node(n);
    let edge = MutationV::Edge(
        model::new_edge(n.id, session_node_id(c.session), EdgeKind::DecidedIn),
    );
    let e = embed_part(n.id, redact::redacted(cands[i].text));
    assert(part[0] == node);
    assert(part[1 + e.len() as int] == edge);
    assert(part.contains(node) && part.contains(edge));
    lemma_decision_is_there(c, cands, i, node);
    lemma_decision_is_there(c, cands, i, edge);
    let a = session_head(c) + turns_part(c, c.session.turns.len());
    let b = decisions_part(c, cands);
    let k = choose|k: int| 0 <= k < b.len() && b[k] == node;
    assert((a + b)[a.len() + k] == node);
    let l = choose|l: int| 0 <= l < b.len() && b[l] == edge;
    assert((a + b)[a.len() + l] == edge);
}

/// Noting the same text under the same topic again is the same node, whenever it is done.
pub proof fn noting_again_is_the_same(topic: Option<Seq<char>>, t: Seq<char>, now: i64, later: i64)
    ensures
        note_node(topic, t, now).id == note_node(topic, t, later).id,
{
}

/// The same path in two repositories has two identities.
pub proof fn files_of_two_repositories_differ(a: Seq<char>, b: Seq<char>, rel: Seq<char>)
    requires
        file_identity(a, rel) == file_identity(b, rel),
    ensures
        a == b,
{
    assert(file_identity(a, rel).len() == a.len() + 1 + rel.len());
    assert(file_identity(b, rel).len() == b.len() + 1 + rel.len());
    assert forall|i: int| 0 <= i < a.len() implies a[i] == b[i] by {
        assert(file_identity(a, rel)[i] == a[i]);
        assert(file_identity(b, rel)[i] == b[i]);
    }
    assert(a =~= b);
}

proof fn lemma_plan_holds(c: SessionContext, cands: Seq<CandidateV>, m: MutationV)
    requires
        session_head(c).contains(m) || turns_part(c, c.session.turns.len()).contains(m)
            || decisions_part(c, cands).contains(m),
    ensures
        session_plan(c, cands).contains(m),
{
    let (h, b) = (session_head(c), turns_part(c, c.session.turns.len()));
    let d = decisions_part(c, cands);
    if h.contains(m) || b.contains(m) {
        lemma_contained_in_sum(h, b, m);
    }
    lemma_contained_in_sum(h + b, d, m);
}

/// The texts of the user and the assistant are written whole: every turn of theirs that is of
/// some value has a node of its own whose body is all that was said, with the session, the
/// place in it and the commit to cite, and a text that is not blank can be found by what it
/// means.
pub proof fn turns_are_written_whole(c: SessionContext, cands: Seq<CandidateV>, i: int)
    requires
        0 <= i < c.session.turns.len(),
        c.session.turns[i].kind == MessageKind::User || c.session.turns[i].kind
            == MessageKind::Assistant,
        !decision::low_value(c.session.turns[i].text),
    ensures
        ({
            let t = c.session.turns[i];
            let at = match t.ts_ms {
                Some(ms) => ms,
                None => match c.session.started_at_ms {
                    Some(ms) => ms,
                    None => c.now,
                },
            };
            let id = model::id_of(
                NodeKind::Turn,
                c.session.agent.name() + seq![':'] + c.session.native_session_id + seq![':']
                    + decimal::decimal(t.index as nat) + seq![':'] + digest::hex(
                    digest::blake3_digest(vstd::utf8::encode_utf8(t.text))@,
                ),
            );
            &&& session_plan(c, cands).contains(
                MutationV::Node(
                    (NodeV {
                        id,
                        kind: NodeKind::Turn,
                        label: if t.text.len() > 48 {
                            t.text.subrange(0, 48)
                        } else {
                            t.text
                        },
                        body: t.text,
                        summary: model::summary_of(t.text),
                        provenance: Some(
                            ProvenanceV {
                                source_tool: c.session.agent.name(),
                                native_session_id: Some(c.session.native_session_id),
                                native_path: c.session.source_path,
                                connector_version: c.session.connector_version,
                                commit: c.session.commit,
                                span: Some((t.index, t.index)),
                                source_priority: 2,
                                confidence: 0x3f80_0000,
                                extractor: "deterministic-v1"@,
                            },
                        ),
                        attrs: Map::empty(),
                        first_seen_ms: at,
                        last_updated_ms: at,
                    }),
                ),
            )
            &&& session_plan(c, cands).contains(
                MutationV::Edge(
                    model::new_edge(session_node_id(c.session), id, EdgeKind::Contains),
                ),
            )
            &&& text::trimmed(t.text).len() != 0 ==> session_plan(c, cands).contains(
                MutationV::Embed(id, t.text),
            )
        }),
{
    let t = c.session.turns[i];
    let n = turn_node(c, t);
    let part = turn_part(c, i);
    let e = embed_part(n.id, t.text);
    let (node, edge) = (
        MutationV::Node(n),
        MutationV::Edge(model::new_edge(session_node_id(c.session), n.id, EdgeKind::Contains)),
    );
    assert(c.session.agent.name() + seq![':'] + c.session.native_session_id + seq![':']
        + decimal::decimal(t.index as nat) + seq![':'] + digest::hex(
        digest::blake3_digest(vstd::utf8::encode_utf8(t.text))@,
    ) =~= turn_identity(c.session, t));
    if t.text.len() > 48 {
        assert(t.text.subrange(0, 48) =~= t.text.take(48));
    } else {
        assert(t.text.take(t.text.len() as int) =~= t.text);
    }
    assert(part[0] == node);
    assert(part[1 + e.len() as int] == edge);
    assert(part.contains(node) && part.contains(edge));
    let count = c.session.turns.len();
    lemma_turn_is_there(c, count, i, node);
    lemma_turn_is_there(c, count, i, edge);
    lemma_plan_holds(c, cands, node);
    lemma_plan_holds(c, cands, edge);
    if text::trimmed(t.text).len() != 0 {
        let embed = MutationV::Embed(n.id, t.text);
        assert(part[1] == embed);
        lemma_turn_is_there(c, count, i, embed);
        lemma_plan_holds(c, cands, embed);
    }
}

proof fn lemma_file_is_there(
    owner: NodeId,
    kind: EdgeKind,
    touched: Seq<Seq<char>>,
    canonical: Seq<Seq<char>>,
    repo: Option<Seq<char>>,
    now: i64,
    j: int,
)
    requires
        0 <= j < touched.len(),
    ensures
        ({
            let file = file_node(
                repo_or_empty(repo),
                paths::relative(repo, touched[j], canonical[j]),
                now,
            );
            let part = files_part(owner, kind, touched, canonical, repo, now);
            &&& part.contains(MutationV::Node(file))
            &&& part.contains(MutationV::Edge(model::new_edge(owner, file.id, kind)))
        }),
    decreases touched.len(),
{
    let init = touched.drop_last();
    let before = files_part(owner, kind, init, canonical, repo, now);
    let last = touched.len() - 1;
    let made = file_node(
        repo_or_empty(repo),
        paths::relative(repo, touched[last], canonical[last]),
        now,
    );
    let more = seq![
        MutationV::Node(made),
        MutationV::Edge(model::new_edge(owner, made.id, kind)),
    ];
    let file = file_node(repo_or_empty(repo), paths::relative(repo, touched[j], canonical[j]), now);
    let (a, b) = (MutationV::Node(file), MutationV::Edge(model::new_edge(owner, file.id, kind)));
    if j < init.len() {
        assert(init[j] == touched[j]);
        lemma_file_is_there(owner, kind, init, canonical, repo, now, j);
    } else {
        assert(more[0] == a && more[1] == b);
        assert(more.contains(a) && more.contains(b));
    }
    lemma_contained_in_sum(before, more, a);
    lemma_contained_in_sum(before, more, b);
}

/// Every file that a kept turn touched is written, known by its path below the repository, with
/// an edge from the turn.
pub proof fn touched_files_are_written(c: SessionContext, cands: Seq<CandidateV>, i: int, j: int)
    requires
        0 <= i < c.session.turns.len(),
        c.session.turns[i].kind == MessageKind::User || c.session.turns[i].kind
            == MessageKind::Assistant,
        !decision::low_value(c.session.turns[i].text),
        0 <= j < c.session.turns[i].touched_files.len(),
    ensures
        ({
            let t = c.session.turns[i];
            let rel = paths::relative(c.repo, t.touched_files[j], c.canonical[i][j]);
            let file = file_node(
                match c.repo {
                    Some(r) => r,
                    None => Seq::empty(),
                },
                rel,
                c.now,
            );
            &&& session_plan(c, cands).contains(MutationV::Node(file))
            &&& session_plan(c, cands).contains(
                MutationV::Edge(
                    model::new_edge(turn_node(c, t).id, file.id, EdgeKind::Touches),
                ),
            )
        }),
{
    let t = c.session.turns[i];
    let n = turn_node(c, t);
    let part = turn_part(c, i);
    let rel = paths::relative(c.repo, t.touched_files[j], c.canonical[i][j]);
    let file = file_node(repo_or_empty(c.repo), rel, c.now);
    let (a, b) = (
        MutationV::Node(file),
        MutationV::Edge(model::new_edge(n.id, file.id, EdgeKind::Touches)),
    );
    let files = files_part(
        n.id,
        EdgeKind::Touches,
        t.touched_files,
        c.canonical[i],
        c.repo,
        c.now,
    );
    lemma_file_is_there(
        n.id,
        EdgeKind::Touches,
        t.touched_files,
        c.canonical[i],
        c.repo,
        c.now,
        j,
    );
    let head = seq![MutationV::Node(n)] + embed_part(n.id, t.text) + seq![
        MutationV::Edge(model::new_edge(session_node_id(c.session), n.id, EdgeKind::Contains)),
    ];
    lemma_contained_in_sum(head, files, a);
    lemma_contained_in_sum(head, files, b);
    lemma_turn_is_there(c, c.session.turns.len(), i, a);
    lemma_turn_is_there(c, c.session.turns.len(), i, b);
    lemma_plan_holds(c, cands, a);
    lemma_plan_holds(c, cands, b);
}

/// The node of a file says its path; its label is the last part of it.
pub proof fn file_nodes_say_their_path(repo: Seq<char>, rel: Seq<char>, now: i64)
    ensures
        file_node(repo, rel, now).id == model::id_of(NodeKind::File, repo + seq!['\u{1}'] + rel),
        file_node(repo, rel, now).kind == NodeKind::File,
        file_node(repo, rel, now).label == paths::base_of(rel),
        file_node(repo, rel, now).attrs == Map::<Seq<char>, Seq<char>>::empty().insert("path"@, rel),
        file_node(repo, rel, now).body.len() == 0,
        file_node(repo, rel, now).first_seen_ms == now,
        file_node(repo, rel, now).last_updated_ms == now,
{
    assert(repo + seq!['\u{1}'] + rel =~= file_identity(repo, rel));
}

proof fn lemma_files_kinds(
    owner: NodeId,
    kind: EdgeKind,
    touched: Seq<Seq<char>>,
    canonical: Seq<Seq<char>>,
    repo: Option<Seq<char>>,
    now: i64,
)
    ensures
        forall|k: int|
            0 <= k < files_part(owner, kind, touched, canonical, repo, now).len() ==> (
            #[trigger] files_part(owner, kind, touched, canonical, repo, now)[k] matches
                MutationV::Node(n) ==> n.kind == NodeKind::File),
    decreases touched.len(),
{
    if touched.len() != 0 {
        lemma_files_kinds(owner, kind, touched.drop_last(), canonical, repo, now);
    }
}

proof fn lemma_turn_nodes(c: SessionContext, n: nat, node: NodeV)
    requires
        n <= c.session.turns.len(),
        turns_part(c, n).contains(MutationV::Node(node)),
        node.kind != NodeKind::File,
    ensures
        exists|i: int|
            0 <= i < n && is_kept(#[trigger] c.session.turns[i]) && node == turn_node(
                c,
                c.session.turns[i],
            ),
    decreases n,
{
    let all = turns_part(c, n);
    let before = turns_part(c, (n - 1) as nat);
    let part = turn_part(c, n - 1);
    let m = MutationV::Node(node);
    let k = choose|k: int| 0 <= k < all.len() && all[k] == m;
    if k < before.len() {
        assert(before[k] == m);
        lemma_turn_nodes(c, (n - 1) as nat, node);
    } else {
        let t = c.session.turns[n - 1];
        let tn = turn_node(c, t);
        assert(part[k - before.len()] == m);
        lemma_files_kinds(
            tn.id,
            EdgeKind::Touches,
            t.touched_files,
            c.canonical[n - 1],
            c.repo,
            c.now,
        );
        let e = embed_part(tn.id, t.text);
        let files = files_part(
            tn.id,
            EdgeKind::Touches,
            t.touched_files,
            c.canonical[n - 1],
            c.repo,
            c.now,
        );
        let at = k - before.len();
        if at >= 2 + e.len() {
            assert(files[at - 2 - e.len()] == m);
        }
        assert(is_kept(t));
    }
}

proof fn lemma_decision_nodes(c: SessionContext, cands: Seq<CandidateV>, node: NodeV)
    requires
        decisions_part(c, cands).contains(MutationV::Node(node)),
        node.kind != NodeKind::File,
    ensures
        node.kind == NodeKind::Decision,
    decreases cands.len(),
{
    let all = decisions_part(c, cands);
    let before = decisions_part(c, cands.drop_last());
    let cand = cands.last();
    let part = decision_part(c, cand);
    let m = MutationV::Node(node);
    let k = choose|k: int| 0 <= k < all.len() && all[k] == m;
    if k < before.len() {
        assert(before[k] == m);
        lemma_decision_nodes(c, cands.drop_last(), node);
    } else {
        let dn = decision_node(c, cand);
        let at = k - before.len();
        assert(part[at] == m);
        let e = embed_part(dn.id, redact::redacted(cand.text));
        let i = cand.turn_index as int;
        if at >= 2 + e.len() {
            let files = files_part(
                dn.id,
                EdgeKind::Produced,
                c.session.turns[i].touched_files,
                c.canonical[i],
                c.repo,
                c.now,
            );
            lemma_files_kinds(
                dn.id,
                EdgeKind::Produced,
                c.session.turns[i].touched_files,
                c.canonical[i],
                c.repo,
                c.now,
            );
            assert(files[at - 2 - e.len()] == m);
        }
    }
}

/// No other turn is written: neither one of little value, nor one that neither the user nor the
/// assistant said.
pub proof fn only_kept_turns_are_written(c: SessionContext, cands: Seq<CandidateV>, node: NodeV)
    requires
        session_plan(c, cands).contains(MutationV::Node(node)),
        node.kind == NodeKind::Turn,
    ensures
        exists|i: int|
            0 <= i < c.session.turns.len() && (#[trigger] c.session.turns[i]).text == node.body && (
            c.session.turns[i].kind == MessageKind::User || c.session.turns[i].kind
                == MessageKind::Assistant) && !decision::low_value(c.session.turns[i].text),
{
    let (h, b) = (session_head(c), turns_part(c, c.session.turns.len()));
    let d = decisions_part(c, cands);
    let all = session_plan(c, cands);
    let m = MutationV::Node(node);
    let k = choose|k: int| 0 <= k < all.len() && all[k] == m;
    if k < h.len() {
        assert(h[k] == m);
        assert(false);
    } else if k < h.len() + b.len() {
        assert(b[k - h.len()] == m);
        lemma_turn_nodes(c, c.session.turns.len(), node);
        let i = choose|i: int|
            0 <= i < c.session.turns.len() && is_kept(#[trigger] c.session.turns[i]) && node
                == turn_node(c, c.session.turns[i]);
        assert(c.session.turns[i].text == node.body);
    } else {
        assert(d[k - h.len() - b.len()] == m);
        lemma_decision_nodes(c, cands, node);
    }
}

/// A session opens with the first thing of some value that the user said, cut to 200
/// characters.
pub proof fn sessions_open_with_the_user(turns: Seq<TurnV>, i: int)
    requires
        0 <= i < turns.len(),
        turns[i].kind == MessageKind::User,
        !decision::low_value(turns[i].text),
        forall|j: int|
            0 <= j < i ==> (#[trigger] turns[j]).kind != MessageKind::User || decision::low_value(
                turns[j].text,
            ),
    ensures
        intro(turns) == if turns[i].text.len() > 200 {
            turns[i].text.subrange(0, 200)
        } else {
            turns[i].text
        },
    decreases i,
{
    if i == 0 {
        let t = turns[0].text;
        if t.len() > 200 {
            assert(t.take(200) =~= t.subrange(0, 200));
        } else {
            assert(t.take(t.len() as int) =~= t);
        }
    } else {
        let rest = turns.drop_first();
        assert(rest[i - 1] == turns[i]);
        assert forall|j: int| 0 <= j < i - 1 implies (#[trigger] rest[j]).kind != MessageKind::User
            || decision::low_value(rest[j].text) by {
            assert(rest[j] == turns[j + 1]);
        }
        sessions_open_with_the_user(rest, i - 1);
    }
}

/// A session in which the user said nothing of value has no opening.
pub proof fn silent_sessions_have_no_opening(turns: Seq<TurnV>)
    requires
        forall|j: int|
            0 <= j < turns.len() ==> (#[trigger] turns[j]).kind != MessageKind::User
                || decision::low_value(turns[j].text),
    ensures
        intro(turns).len() == 0,
    decreases turns.len(),
{
    if turns.len() != 0 {
        let rest = turns.drop_first();
        assert forall|j: int| 0 <= j < rest.len() implies (#[trigger] rest[j]).kind
            != MessageKind::User || decision::low_value(rest[j].text) by {
            assert(rest[j] == turns[j + 1]);
        }
        silent_sessions_have_no_opening(rest);
    }
}

/// A session is written with its opening as its body and all that is known of where it comes
/// from, and it is derived from its repository.
pub proof fn sessions_are_written(c: SessionContext, cands: Seq<CandidateV>)
    ensures
        ({
            let s = c.session;
            let at = match s.started_at_ms {
                Some(ms) => ms,
                None => c.now,
            };
            let id = model::id_of(
                NodeKind::Session,
                s.agent.name() + seq![':'] + s.native_session_id,
            );
            &&& session_plan(c, cands).contains(
                MutationV::Node(
                    (NodeV {
                        id,
                        kind: NodeKind::Session,
                        label: "session "@ + text::first_chars(s.native_session_id, 8),
                        body: intro(s.turns),
                        summary: model::summary_of(intro(s.turns)),
                        provenance: Some(
                            ProvenanceV {
                                source_tool: s.agent.name(),
                                native_session_id: Some(s.native_session_id),
                                native_path: s.source_path,
                                connector_version: s.connector_version,
                                commit: s.commit,
                                span: None,
                                source_priority: 2,
                                confidence: 0x3f80_0000,
                                extractor: "deterministic-v1"@,
                            },
                        ),
                        attrs: Map::empty(),
                        first_seen_ms: at,
                        last_updated_ms: at,
                    }),
                ),
            )
            &&& text::trimmed(intro(s.turns)).len() != 0 ==> session_plan(c, cands).contains(
                MutationV::Embed(id, intro(s.turns)),
            )
            &&& c.repo matches Some(repo) ==> session_plan(c, cands).contains(
                MutationV::Node(
                    (NodeV {
                        attrs: Map::empty().insert("path"@, repo),
                        ..model::new_node(NodeKind::Repo, repo, paths::base_of(repo), c.now)
                    }),
                ),
            ) && session_plan(c, cands).contains(
                MutationV::Edge(
                    model::new_edge(id, model::id_of(NodeKind::Repo, repo), EdgeKind::DerivedFrom),
                ),
            )
        }),
{
    let h = session_head(c);
    let s = c.session;
    let id = session_node_id(s);
    let e = embed_part(id, intro(s.turns));
    assert(s.agent.name() + seq![':'] + s.native_session_id =~= session_identity(s));
    let node = MutationV::Node(session_node(c));
    assert(h[0] == node);
    lemma_plan_holds(c, cands, node);
    if text::trimmed(intro(s.turns)).len() != 0 {
        let m = MutationV::Embed(id, intro(s.turns));
        assert(h[1] == m);
        lemma_plan_holds(c, cands, m);
    }
    if let Some(repo) = c.repo {
        let a = MutationV::Node(repo_node(repo, paths::base_of(repo), c.now));
        let b = MutationV::Edge(
            model::new_edge(id, model::id_of(NodeKind::Repo, repo), EdgeKind::DerivedFrom),
        );
        assert(h[1 + e.len() as int] == a);
        assert(h[2 + e.len() as int] == b);
        lemma_plan_holds(c, cands, a);
        lemma_plan_holds(c, cands, b);
    }
}

/// A decision is written whole, redacted: its text is its label, and its body says why as well;
/// what was rejected is an attribute; how sure it is and what found it can be cited. It can be
/// found by what it means, and it is tied to its session.
pub proof fn decisions_are_written_whole(c: SessionContext, cands: Seq<CandidateV>, i: int)
    requires
        0 <= i < cands.len(),
    ensures
        ({
            let s = c.session;
            let t = redact::redacted(cands[i].text);
            let why = redact::redacted(cands[i].rationale);
            let rejected = cands[i].rejected.map_values(|x: Seq<char>| redact::redacted(x));
            let at = match s.started_at_ms {
                Some(ms) => ms,
                None => c.now,
            };
            let id = model::id_of(
                NodeKind::Decision,
                (match c.repo {
                    Some(repo) => repo,
                    None => s.agent.name() + seq![':'] + s.native_session_id,
                }) + seq![':', ':'] + text::lowered(t),
            );
            &&& session_plan(c, cands).contains(
                MutationV::Node(
                    (NodeV {
                        id,
                        kind: NodeKind::Decision,
                        label: t,
                        body: if why.len() == 0 {
                            t
                        } else {
                            t + "\n\nRationale: "@ + why
                        },
                        summary: model::summary_of(t),
                        provenance: Some(
                            ProvenanceV {
                                source_tool: s.agent.name(),
                                native_session_id: Some(s.native_session_id),
                                native_path: s.source_path,
                                connector_version: s.connector_version,
                                commit: s.commit,
                                span: None,
                                source_priority: 2,
                                confidence: cands[i].confidence,
                                extractor: cands[i].extractor,
                            },
                        ),
                        attrs: if rejected.len() == 0 {
                            Map::empty()
                        } else {
                            Map::empty().insert(
                                "rejected"@,
                                text::joined(rejected, seq![';', ' ']),
                            )
                        },
                        first_seen_ms: at,
                        last_updated_ms: at,
                    }),
                ),
            )
            &&& session_plan(c, cands).contains(
                MutationV::Edge(model::new_edge(id, session_node_id(s), EdgeKind::DecidedIn)),
            )
            &&& text::trimmed(t).len() != 0 ==> session_plan(c, cands).contains(
                MutationV::Embed(id, t),
            )
        }),
{
    let cand = cands[i];
    let n = decision_node(c, cand);
    let s = c.session;
    let t = redact::redacted(cand.text);
    let part = decision_part(c, cand);
    let e = embed_part(n.id, t);
    reveal_strlit("::");
    reveal_strlit("; ");
    assert("::"@ =~= seq![':', ':']);
    assert("; "@ =~= seq![';', ' ']);
    assert(s.agent.name() + seq![':'] + s.native_session_id =~= session_identity(s));
    assert((match c.repo {
        Some(repo) => repo,
        None => s.agent.name() + seq![':'] + s.native_session_id,
    }) + seq![':', ':'] + text::lowered(t) =~= decision_identity(c, t));
    let (node, edge) = (
        MutationV::Node(n),
        MutationV::Edge(model::new_edge(n.id, session_node_id(s), EdgeKind::DecidedIn)),
    );
    assert(redacted_all(cand.rejected) =~= cand.rejected.map_values(
        |x: Seq<char>| redact::redacted(x),
    ));
    assert(part[0] == node);
    assert(part[1 + e.len() as int] == edge);
    assert(part.contains(node) && part.contains(edge));
    lemma_decision_is_there(c, cands, i, node);
    lemma_decision_is_there(c, cands, i, edge);
    lemma_plan_holds(c, cands, node);
    lemma_plan_holds(c, cands, edge);
    if text::trimmed(t).len() != 0 {
        let m = MutationV::Embed(n.id, t);
        assert(part[1] == m);
        lemma_decision_is_there(c, cands, i, m);
        lemma_plan_holds(c, cands, m);
    }
}

/// Every file that the turn of a decision touched is one that the decision produced.
pub proof fn produced_files_are_written(c: SessionContext, cands: Seq<CandidateV>, i: int, j: int)
    requires
        0 <= i < cands.len(),
        cands[i].turn_index < c.session.turns.len(),
        0 <= j < c.session.turns[cands[i].turn_index as int].touched_files.len(),
    ensures
        ({
            let at = cands[i].turn_index as int;
            let t = c.session.turns[at];
            let file = file_node(
                match c.repo {
                    Some(r) => r,
                    None => Seq::empty(),
                },
                paths::relative(c.repo, t.touched_files[j], c.canonical[at][j]),
                c.now,
            );
            &&& session_plan(c, cands).contains(MutationV::Node(file))
            &&& session_plan(c, cands).contains(
                MutationV::Edge(
                    model::new_edge(decision_node(c, cands[i]).id, file.id, EdgeKind::Produced),
                ),
            )
        }),
{
    let cand = cands[i];
    let n = decision_node(c, cand);
    let at = cand.turn_index as int;
    let t = c.session.turns[at];
    let rel = paths::relative(c.repo, t.touched_files[j], c.canonical[at][j]);
    let file = file_node(repo_or_empty(c.repo), rel, c.now);
    let (a, b) = (
        MutationV::Node(file),
        MutationV::Edge(model::new_edge(n.id, file.id, EdgeKind::Produced)),
    );
    let files = files_part(
        n.id,
        EdgeKind::Produced,
        t.touched_files,
        c.canonical[at],
        c.repo,
        c.now,
    );
    lemma_file_is_there(
        n.id,
        EdgeKind::Produced,
        t.touched_files,
        c.canonical[at],
        c.repo,
        c.now,
        j,
    );
    let head = seq![MutationV::Node(n)] + embed_part(n.id, redact::redacted(cand.text)) + seq![
        MutationV::Edge(model::new_edge(n.id, session_node_id(c.session), EdgeKind::DecidedIn)),
    ];
    lemma_contained_in_sum(head, files, a);
    lemma_contained_in_sum(head, files, b);
    assert(decision_part(c, cand) == head + files);
    lemma_decision_is_there(c, cands, i, a);
    lemma_decision_is_there(c, cands, i, b);
    lemma_plan_holds(c, cands, a);
    lemma_plan_holds(c, cands, b);
}

/// A note that is not blank is written whole, redacted, as a decision of the user's own, known
/// by its topic and its words; it can be found by what it means.
pub proof fn notes_are_written_whole(topic: Option<Seq<char>>, note: Seq<char>, now: i64)
    ensures
        text::trimmed(note).len() == 0 <==> note_plan(topic, note, now) is None,
        ({
            let t = redact::redacted(note);
            let id = model::id_of(
                NodeKind::Decision,
                "manual-note::"@ + (match topic {
                    Some(x) => x,
                    None => "note"@,
                }) + seq![':', ':'] + digest::hex(
                    digest::blake3_digest(vstd::utf8::encode_utf8(t))@,
                ),
            );
            text::trimmed(note).len() != 0 ==> note_plan(topic, note, now) == Some(
                seq![
                    MutationV::Node(
                        (NodeV {
                            id,
                            kind: NodeKind::Decision,
                            label: if t.len() > 80 {
                                t.subrange(0, 80)
                            } else {
                                t
                            },
                            body: t,
                            summary: model::summary_of(t),
                            provenance: Some(
                                ProvenanceV {
                                    source_tool: "mcp"@,
                                    native_session_id: None,
                                    native_path: None,
                                    connector_version: None,
                                    commit: None,
                                    span: None,
                                    source_priority: 3,
                                    confidence: 0x3f80_0000,
                                    extractor: "manual"@,
                                },
                            ),
                            attrs: Map::empty(),
                            first_seen_ms: now,
                            last_updated_ms: now,
                        }),
                    ),
                    MutationV::Embed(id, t),
                ],
            )
        }),
{
    let t = redact::redacted(note);
    reveal_strlit("::");
    assert("::"@ =~= seq![':', ':']);
    if t.len() > 80 {
        assert(t.subrange(0, 80) =~= t.take(80));
    } else {
        assert(t.take(t.len() as int) =~= t);
    }
}

proof fn lemma_repo_plan_holds(c: RepoContext, m: MutationV)
    requires
        frameworks_part(c.root, c.scan.frameworks, c.now).contains(m) || scanned_files_part(
            c.root,
            c.scan.files,
            c.now,
        ).contains(m) || (c.history matches Some(h) && commits_part(c, h.commits).contains(m)),
    ensures
        repo_plan(c).contains(m),
{
    let a = seq![MutationV::Node(scanned_repo_node(c))];
    let b = frameworks_part(c.root, c.scan.frameworks, c.now);
    let f = scanned_files_part(c.root, c.scan.files, c.now);
    let k = match c.history {
        Some(h) => commits_part(c, h.commits),
        None => Seq::empty(),
    };
    if b.contains(m) {
        lemma_contained_in_sum(a, b, m);
    }
    if b.contains(m) || f.contains(m) {
        lemma_contained_in_sum(a + b, f, m);
    }
    lemma_contained_in_sum(a + b + f, k, m);
}

/// A repository is written first, with its path and, where it has a history, with the short id
/// of its head.
pub proof fn repositories_are_written(c: RepoContext)
    ensures
        repo_plan(c).len() != 0,
        repo_plan(c)[0] is Node,
        ({
            let n = repo_plan(c)[0]->Node_0;
            &&& n.id == model::id_of(NodeKind::Repo, c.root)
            &&& n.kind == NodeKind::Repo
            &&& n.label == c.scan.repo_label
            &&& n.attrs.contains_key("path"@)
            &&& n.attrs["path"@] == c.root
            &&& n.last_updated_ms == c.now
            &&& n.attrs.contains_key("commit"@) <==> (c.history matches Some(h) && h.head_short
                is Some)
            &&& c.history matches Some(h) ==> (h.head_short matches Some(head) ==> n.attrs["commit"@]
                == head)
        }),
{
    reveal_strlit("path");
    reveal_strlit("commit");
    assert("path"@.len() != "commit"@.len());
    assert(repo_plan(c)[0] == MutationV::Node(scanned_repo_node(c)));
}

proof fn lemma_framework_is_there(root: Seq<char>, names: Seq<Seq<char>>, now: i64, i: int)
    requires
        0 <= i < names.len(),
    ensures
        ({
            let n = model::new_node(NodeKind::Framework, names[i], names[i], now);
            let part = frameworks_part(root, names, now);
            &&& part.contains(MutationV::Node(n))
            &&& part.contains(
                MutationV::Edge(model::new_edge(repo_id(root), n.id, EdgeKind::DependsOn)),
            )
        }),
    decreases names.len(),
{
    let init = names.drop_last();
    let before = frameworks_part(root, init, now);
    let l = model::new_node(NodeKind::Framework, names.last(), names.last(), now);
    let more = seq![
        MutationV::Node(l),
        MutationV::Edge(model::new_edge(repo_id(root), l.id, EdgeKind::DependsOn)),
    ];
    let n = model::new_node(NodeKind::Framework, names[i], names[i], now);
    let (a, b) = (
        MutationV::Node(n),
        MutationV::Edge(model::new_edge(repo_id(root), n.id, EdgeKind::DependsOn)),
    );
    if i < init.len() {
        assert(init[i] == names[i]);
        lemma_framework_is_there(root, init, now, i);
    } else {
        assert(more[0] == a && more[1] == b);
        assert(more.contains(a) && more.contains(b));
    }
    lemma_contained_in_sum(before, more, a);
    lemma_contained_in_sum(before, more, b);
}

/// A repository depends on each of its frameworks, known by its name alone.
pub proof fn frameworks_are_written(c: RepoContext, i: int)
    requires
        0 <= i < c.scan.frameworks.len(),
    ensures
        repo_plan(c).contains(
            MutationV::Node(
                model::new_node(
                    NodeKind::Framework,
                    c.scan.frameworks[i],
                    c.scan.frameworks[i],
                    c.now,
                ),
            ),
        ),
        repo_plan(c).contains(
            MutationV::Edge(
                model::new_edge(
                    model::id_of(NodeKind::Repo, c.root),
                    model::id_of(NodeKind::Framework, c.scan.frameworks[i]),
                    EdgeKind::DependsOn,
                ),
            ),
        ),
{
    lemma_framework_is_there(c.root, c.scan.frameworks, c.now, i);
    let n = model::new_node(NodeKind::Framework, c.scan.frameworks[i], c.scan.frameworks[i], c.now);
    lemma_repo_plan_holds(c, MutationV::Node(n));
    lemma_repo_plan_holds(
        c,
        MutationV::Edge(model::new_edge(repo_id(c.root), n.id, EdgeKind::DependsOn)),
    );
}

proof fn lemma_symbol_is_there(root: Seq<char>, rel: Seq<char>, syms: Seq<SymbolV>, now: i64, j: int)
    requires
        0 <= j < syms.len(),
    ensures
        ({
            let n = symbol_node(root, rel, syms[j], now);
            let part = symbols_part(root, rel, syms, now);
            &&& part.contains(MutationV::Node(n))
            &&& part.contains(
                MutationV::Edge(
                    model::new_edge(file_node(root, rel, now).id, n.id, EdgeKind::Defines),
                ),
            )
            &&& part.contains(MutationV::Embed(n.id, syms[j].name))
        }),
    decreases syms.len(),
{
    let init = syms.drop_last();
    let before = symbols_part(root, rel, init, now);
    let file = file_node(root, rel, now).id;
    let l = symbol_node(root, rel, syms.last(), now);
    let more = seq![
        MutationV::Node(l),
        MutationV::Edge(model::new_edge(file, l.id, EdgeKind::Defines)),
        MutationV::Embed(l.id, syms.last().name),
    ];
    let n = symbol_node(root, rel, syms[j], now);
    let (a, b, e) = (
        MutationV::Node(n),
        MutationV::Edge(model::new_edge(file, n.id, EdgeKind::Defines)),
        MutationV::Embed(n.id, syms[j].name),
    );
    if j < init.len() {
        assert(init[j] == syms[j]);
        lemma_symbol_is_there(root, rel, init, now, j);
    } else {
        assert(more[0] == a && more[1] == b && more[2] == e);
        assert(more.contains(a) && more.contains(b) && more.contains(e));
    }
    lemma_contained_in_sum(before, more, a);
    lemma_contained_in_sum(before, more, b);
    lemma_contained_in_sum(before, more, e);
}

proof fn lemma_scanned_file_is_there(
    root: Seq<char>,
    files: Seq<(Seq<char>, Seq<SymbolV>)>,
    now: i64,
    i: int,
    m: MutationV,
)
    requires
        0 <= i < files.len(),
        scanned_file_part(root, files[i].0, files[i].1, now).contains(m),
    ensures
        scanned_files_part(root, files, now).contains(m),
    decreases files.len(),
{
    let init = files.drop_last();
    if i < init.len() {
        assert(init[i] == files[i]);
        lemma_scanned_file_is_there(root, init, now, i, m);
    }
    lemma_contained_in_sum(
        scanned_files_part(root, init, now),
        scanned_file_part(root, files.last().0, files.last().1, now),
        m,
    );
}

/// Every scanned file is written, contained in its repository; it can be found by its path and
/// the names of all its symbols.
pub proof fn scanned_files_are_written(c: RepoContext, i: int)
    requires
        0 <= i < c.scan.files.len(),
    ensures
        ({
            let (rel, syms) = c.scan.files[i];
            let file = file_node(c.root, rel, c.now);
            &&& repo_plan(c).contains(MutationV::Node(file))
            &&& repo_plan(c).contains(
                MutationV::Edge(
                    model::new_edge(
                        model::id_of(NodeKind::Repo, c.root),
                        file.id,
                        EdgeKind::Contains,
                    ),
                ),
            )
            &&& repo_plan(c).contains(
                MutationV::Embed(
                    file.id,
                    rel + seq![' '] + text::joined(
                        syms.map_values(|s: SymbolV| s.name),
                        seq![' '],
                    ),
                ),
            )
        }),
{
    let (rel, syms) = c.scan.files[i];
    let file = file_node(c.root, rel, c.now);
    let part = scanned_file_part(c.root, rel, syms, c.now);
    reveal_strlit(" ");
    assert(" "@ =~= seq![' ']);
    assert(symbol_names(syms) =~= syms.map_values(|s: SymbolV| s.name));
    assert(rel + seq![' '] + text::joined(symbol_names(syms), seq![' ']) =~= rel.push(' ')
        + text::joined(symbol_names(syms), " "@));
    let (a, b, e) = (
        MutationV::Node(file),
        MutationV::Edge(model::new_edge(repo_id(c.root), file.id, EdgeKind::Contains)),
        MutationV::Embed(file.id, rel.push(' ') + text::joined(symbol_names(syms), " "@)),
    );
    assert(part[0] == a && part[1] == b && part[2] == e);
    assert(part.contains(a) && part.contains(b) && part.contains(e));
    lemma_scanned_file_is_there(c.root, c.scan.files, c.now, i, a);
    lemma_scanned_file_is_there(c.root, c.scan.files, c.now, i, b);
    lemma_scanned_file_is_there(c.root, c.scan.files, c.now, i, e);
    lemma_repo_plan_holds(c, a);
    lemma_repo_plan_holds(c, b);
    lemma_repo_plan_holds(c, e);
}

/// Every symbol of a scanned file is written, defined by its file, and can be found by its
/// name; one of the same name and another kind, or in another file, is another symbol.
pub proof fn symbols_are_written(c: RepoContext, i: int, j: int)
    requires
        0 <= i < c.scan.files.len(),
        0 <= j < c.scan.files[i].1.len(),
    ensures
        ({
            let rel = c.scan.files[i].0;
            let sym = c.scan.files[i].1[j];
            let id = model::id_of(
                NodeKind::Symbol,
                c.root + seq!['\u{1}'] + rel + seq!['\u{1}'] + sym.kind + seq!['\u{1}'] + sym.name,
            );
            &&& repo_plan(c).contains(
                MutationV::Node(
                    (NodeV {
                        id,
                        kind: NodeKind::Symbol,
                        label: sym.name,
                        body: Seq::empty(),
                        summary: Seq::empty(),
                        provenance: None,
                        attrs: Map::empty().insert("kind"@, sym.kind).insert("file"@, rel),
                        first_seen_ms: c.now,
                        last_updated_ms: c.now,
                    }),
                ),
            )
            &&& repo_plan(c).contains(
                MutationV::Edge(
                    model::new_edge(file_node(c.root, rel, c.now).id, id, EdgeKind::Defines),
                ),
            )
            &&& repo_plan(c).contains(MutationV::Embed(id, sym.name))
        }),
{
    let (rel, syms) = c.scan.files[i];
    let sym = syms[j];
    let n = symbol_node(c.root, rel, sym, c.now);
    let file = file_node(c.root, rel, c.now);
    assert(c.root + seq!['\u{1}'] + rel + seq!['\u{1}'] + sym.kind + seq!['\u{1}'] + sym.name
        =~= file_identity(c.root, rel).push('\u{1}') + sym.kind.push('\u{1}') + sym.name);
    lemma_symbol_is_there(c.root, rel, syms, c.now, j);
    let head = seq![
        MutationV::Node(file),
        MutationV::Edge(model::new_edge(repo_id(c.root), file.id, EdgeKind::Contains)),
        MutationV::Embed(file.id, rel.push(' ') + text::joined(symbol_names(syms), " "@)),
    ];
    let tail = symbols_part(c.root, rel, syms, c.now);
    let (a, b, e) = (
        MutationV::Node(n),
        MutationV::Edge(model::new_edge(file.id, n.id, EdgeKind::Defines)),
        MutationV::Embed(n.id, sym.name),
    );
    lemma_contained_in_sum(head, tail, a);
    lemma_contained_in_sum(head, tail, b);
    lemma_contained_in_sum(head, tail, e);
    lemma_scanned_file_is_there(c.root, c.scan.files, c.now, i, a);
    lemma_scanned_file_is_there(c.root, c.scan.files, c.now, i, b);
    lemma_scanned_file_is_there(c.root, c.scan.files, c.now, i, e);
    lemma_repo_plan_holds(c, a);
    lemma_repo_plan_holds(c, b);
    lemma_repo_plan_holds(c, e);
}

proof fn lemma_commit_is_there(c: RepoContext, commits: Seq<CommitV>, i: int, m: MutationV)
    requires
        0 <= i < commits.len(),
        commit_part(c, commits[i]).contains(m),
    ensures
        commits_part(c, commits).contains(m),
    decreases commits.len(),
{
    let init = commits.drop_last();
    if i < init.len() {
        assert(init[i] == commits[i]);
        lemma_commit_is_there(c, init, i, m);
    }
    lemma_contained_in_sum(commits_part(c, init), commit_part(c, commits.last()), m);
}

/// Every commit is written, contained in its repository, with its id, its author and its
/// summary, the words redacted, at the time when it was made.
pub proof fn commits_are_written(c: RepoContext, h: HistoryV, i: int)
    requires
        c.history == Some(h),
        0 <= i < h.commits.len(),
    ensures
        ({
            let k = h.commits[i];
            let id = model::id_of(NodeKind::Commit, k.oid);
            &&& repo_plan(c).contains(
                MutationV::Node(
                    (NodeV {
                        id,
                        kind: NodeKind::Commit,
                        label: k.short,
                        body: redact::redacted(k.summary),
                        summary: Seq::empty(),
                        provenance: Some(
                            ProvenanceV {
                                source_tool: "git"@,
                                native_session_id: None,
                                native_path: None,
                                connector_version: None,
                                commit: Some(k.oid),
                                span: None,
                                source_priority: 3,
                                confidence: 0x3f80_0000,
                                extractor: "repo-git-v1"@,
                            },
                        ),
                        attrs: Map::empty().insert("oid"@, k.oid).insert(
                            "author"@,
                            redact::redacted(k.author),
                        ),
                        first_seen_ms: k.time_ms,
                        last_updated_ms: k.time_ms,
                    }),
                ),
            )
            &&& repo_plan(c).contains(
                MutationV::Edge(
                    model::new_edge(model::id_of(NodeKind::Repo, c.root), id, EdgeKind::Contains),
                ),
            )
        }),
{
    let k = h.commits[i];
    let n = commit_node(k);
    let part = commit_part(c, k);
    let (a, b) = (
        MutationV::Node(n),
        MutationV::Edge(model::new_edge(repo_id(c.root), n.id, EdgeKind::Contains)),
    );
    assert(part[0] == a && part[1] == b);
    assert(part.contains(a) && part.contains(b));
    lemma_commit_is_there(c, h.commits, i, a);
    lemma_commit_is_there(c, h.commits, i, b);
    lemma_repo_plan_holds(c, a);
    lemma_repo_plan_holds(c, b);
}

proof fn lemma_changed_is_there(c: RepoContext, commit: NodeId, changed: Seq<Seq<char>>, j: int, rel: Seq<char>)
    requires
        0 <= j < changed.len(),
        changed[j] == c.prefix + rel,
        c.scan.all_files.contains(rel),
    ensures
        ({
            let file = file_node(c.root, rel, c.now);
            let part = changed_part(c, commit, changed);
            &&& part.contains(MutationV::Node(file))
            &&& part.contains(
                MutationV::Edge(model::new_edge(file.id, commit, EdgeKind::ChangedBy)),
            )
        }),
    decreases changed.len(),
{
    let init = changed.drop_last();
    let before = changed_part(c, commit, init);
    let all = changed_part(c, commit, changed);
    let file = file_node(c.root, rel, c.now);
    let (a, b) = (
        MutationV::Node(file),
        MutationV::Edge(model::new_edge(file.id, commit, EdgeKind::ChangedBy)),
    );
    if j < init.len() {
        assert(init[j] == changed[j]);
        lemma_changed_is_there(c, commit, init, j, rel);
        if all != before {
            let more = all.skip(before.len() as int);
            assert(all =~= before + more);
            lemma_contained_in_sum(before, more, a);
            lemma_contained_in_sum(before, more, b);
        }
    } else {
        let p = changed.last();
        assert(p.take(c.prefix.len() as int) =~= c.prefix);
        assert(p.subrange(0, c.prefix.len() as int) =~= c.prefix);
        assert(p.skip(c.prefix.len() as int) =~= rel);
        assert(below_prefix(p, c.prefix) == Some(rel));
        let more = seq![a, b];
        assert(more[0] == a && more[1] == b);
        assert(more.contains(a) && more.contains(b));
        assert(all == before + more);
        lemma_contained_in_sum(before, more, a);
        lemma_contained_in_sum(before, more, b);
    }
}

/// Every file that a commit changed, and that is still there below the scanned root, was
/// changed by the commit, whether or not it was scanned for symbols.
pub proof fn changed_files_are_written(c: RepoContext, h: HistoryV, i: int, j: int, rel: Seq<char>)
    requires
        c.history == Some(h),
        0 <= i < h.commits.len(),
        0 <= j < h.commits[i].changed.len(),
        h.commits[i].changed[j] == c.prefix + rel,
        c.scan.all_files.contains(rel),
    ensures
        ({
            let file = file_node(c.root, rel, c.now);
            &&& repo_plan(c).contains(MutationV::Node(file))
            &&& repo_plan(c).contains(
                MutationV::Edge(
                    model::new_edge(
                        file.id,
                        model::id_of(NodeKind::Commit, h.commits[i].oid),
                        EdgeKind::ChangedBy,
                    ),
                ),
            )
        }),
{
    let k = h.commits[i];
    let n = commit_node(k);
    let file = file_node(c.root, rel, c.now);
    let (a, b) = (
        MutationV::Node(file),
        MutationV::Edge(model::new_edge(file.id, n.id, EdgeKind::ChangedBy)),
    );
    lemma_changed_is_there(c, n.id, k.changed, j, rel);
    let head = seq![
        MutationV::Node(n),
        MutationV::Edge(model::new_edge(repo_id(c.root), n.id, EdgeKind::Contains)),
    ];
    lemma_contained_in_sum(head, changed_part(c, n.id, k.changed), a);
    lemma_contained_in_sum(head, changed_part(c, n.id, k.changed), b);
    lemma_commit_is_there(c, h.commits, i, a);
    lemma_commit_is_there(c, h.commits, i, b);
    lemma_repo_plan_holds(c, a);
    lemma_repo_plan_holds(c, b);
}

/// No file that is gone, or that lies outside the scanned root, is said to be changed.
pub proof fn only_files_on_disk_are_changed(
    c: RepoContext,
    commit: NodeId,
    changed: Seq<Seq<char>>,
    e: EdgeV,
)
    requires
        changed_part(c, commit, changed).contains(MutationV::Edge(e)),
    ensures
        e.to == commit,
        e.kind == EdgeKind::ChangedBy,
        exists|j: int, rel: Seq<char>|
            0 <= j < changed.len() && #[trigger] changed[j] == c.prefix + rel
                && #[trigger] c.scan.all_files.contains(rel) && e.from == file_node(
                c.root,
                rel,
                c.now,
            ).id,
    decreases changed.len(),
{
    let all = changed_part(c, commit, changed);
    let init = changed.drop_last();
    let before = changed_part(c, commit, init);
    let m = MutationV::Edge(e);
    let k = choose|k: int| 0 <= k < all.len() && all[k] == m;
    if k < before.len() {
        assert(before[k] == m);
        only_files_on_disk_are_changed(c, commit, init, e);
        let (j, rel) = choose|j: int, rel: Seq<char>|
            0 <= j < init.len() && #[trigger] init[j] == c.prefix + rel
                && #[trigger] c.scan.all_files.contains(rel) && e.from == file_node(
                c.root,
                rel,
                c.now,
            ).id;
        assert(changed[j] == c.prefix + rel);
    } else {
        let p = changed[changed.len() - 1];
        let rel = below_prefix(p, c.prefix)->0;
        assert(c.scan.all_files.contains(rel));
        assert(p =~= c.prefix + rel) by {
            assert(p.subrange(0, c.prefix.len() as int) =~= c.prefix);
        }
        assert(changed[changed.len() - 1] == c.prefix + rel);
    }
}

/// The paths of git below a scanned root start with the path of the root, with forward slashes
/// and one behind it.
pub proof fn git_paths_lead_to_the_root(rel: Seq<char>)
    ensures
        rel.len() == 0 ==> git_prefix(rel).len() == 0,
        rel.len() != 0 ==> git_prefix(rel).len() == rel.len() + 1 && git_prefix(rel).last() == '/'
            && forall|i: int|
            0 <= i < rel.len() ==> (#[trigger] git_prefix(rel)[i]) == if rel[i] == '\\' {
                '/'
            } else {
                rel[i]
            },
{
}

/// A text is embedded exactly where it is not blank.
pub proof fn blank_texts_are_not_embedded(id: NodeId, t: Seq<char>)
    ensures
        text::trimmed(t).len() == 0 ==> embed_part(id, t).len() == 0,
        text::trimmed(t).len() != 0 ==> embed_part(id, t) == seq![MutationV::Embed(id, t)],
{
}

/// What is known of a history: the first eight digits of its head, and all its commits.
pub proof fn histories_are_viewed_whole(h: &History)
    ensures
        history_view(Some(h)) is Some,
        history_view(Some(h))->0.commits == git::commit_views(h.commits@),
        h.head is None ==> history_view(Some(h))->0.head_short is None,
        h.head matches Some(o) ==> history_view(Some(h))->0.head_short == Some(
            text::first_chars(o@, 8),
        ),
        history_view(None) is None,
{
}

/// What a mutation says: all that it holds.
pub proof fn mutation_views_say_all(n: Node, e: Edge, id: NodeId, t: String)
    ensures
        Mutation::Node(n)@ == MutationV::Node(n@),
        Mutation::Edge(e)@ == MutationV::Edge(e@),
        Mutation::Embed(id, t)@ == MutationV::Embed(id, t@),
{
}

/// Viewing a list keeps all its items, in their order.
pub proof fn plan_view_keep_all(v: Seq<Mutation>, i: int)
    requires
        0 <= i < v.len(),
    ensures
        plan_view(v).len() == v.len(),
        plan_view(v)[i] == v[i]@,
{
}

} // verus!
