//! The memory graph's data and the normalized transcripts that it is built from.
//!
//! Node ids are content-addressed: the same kind and identity always give the same id, so
//! ingesting something twice is an upsert of the same nodes. A transcript of any agent is
//! first lowered to a [`CanonicalSession`].
//!
//! Real numbers are kept as the bit patterns of their single-precision form ([`F32Bits`]).

use vstd::prelude::*;
use vstd::bytes::u128_from_le_bytes;
use vstd::slice::slice_subrange;

use crate::attrs::Attrs;
use crate::digest;
use crate::json::{Json, JsonV};
use crate::text;
use crate::text::CharClass;

verus! {

/// Content-addressed node id: the first 16 bytes of a digest.
pub type NodeId = u128;

/// The bits of a single-precision number.
pub type F32Bits = u32;

/// The bits of 1.0.
pub const F32_ONE: u32 = 0x3f80_0000;

/// What a node is.
#[derive(Debug, Clone, Copy, PartialEq, Eq, Hash, Structural)]
pub enum NodeKind {
    Session,
    Turn,
    Decision,
    Implementation,
    Pattern,
    DebtSignal,
    Repo,
    Module,
    File,
    Symbol,
    Manifest,
    Package,
    Commit,
    Framework,
    Tooling,
    DataSource,
    DesignDoc,
    Concept,
    Person,
}

impl NodeKind {
    /// The stable tag of a kind.
    pub open spec fn name(self) -> Seq<char> {
        match self {
            NodeKind::Session => "session"@,
            NodeKind::Turn => "turn"@,
            NodeKind::Decision => "decision"@,
            NodeKind::Implementation => "implementation"@,
            NodeKind::Pattern => "pattern"@,
            NodeKind::DebtSignal => "debt_signal"@,
            NodeKind::Repo => "repo"@,
            NodeKind::Module => "module"@,
            NodeKind::File => "file"@,
            NodeKind::Symbol => "symbol"@,
            NodeKind::Manifest => "manifest"@,
            NodeKind::Package => "package"@,
            NodeKind::Commit => "commit"@,
            NodeKind::Framework => "framework"@,
            NodeKind::Tooling => "tooling"@,
            NodeKind::DataSource => "data_source"@,
            NodeKind::DesignDoc => "design_doc"@,
            NodeKind::Concept => "concept"@,
            NodeKind::Person => "person"@,
        }
    }

    /// Stable lower-case tag, used in ids, filters and on the wire.
    pub fn tag(self) -> (r: &'static str)
        ensures
            r@ == self.name(),
    {
        match self {
            NodeKind::Session => "session",
            NodeKind::Turn => "turn",
            NodeKind::Decision => "decision",
            NodeKind::Implementation => "implementation",
            NodeKind::Pattern => "pattern",
            NodeKind::DebtSignal => "debt_signal",
            NodeKind::Repo => "repo",
            NodeKind::Module => "module",
            NodeKind::File => "file",
            NodeKind::Symbol => "symbol",
            NodeKind::Manifest => "manifest",
            NodeKind::Package => "package",
            NodeKind::Commit => "commit",
            NodeKind::Framework => "framework",
            NodeKind::Tooling => "tooling",
            NodeKind::DataSource => "data_source",
            NodeKind::DesignDoc => "design_doc",
            NodeKind::Concept => "concept",
            NodeKind::Person => "person",
        }
    }

    /// The name of a kind, as it is written in the code.
    pub open spec fn title_of(self) -> Seq<char> {
        match self {
            NodeKind::Session => "Session"@,
            NodeKind::Turn => "Turn"@,
            NodeKind::Decision => "Decision"@,
            NodeKind::Implementation => "Implementation"@,
            NodeKind::Pattern => "Pattern"@,
            NodeKind::DebtSignal => "DebtSignal"@,
            NodeKind::Repo => "Repo"@,
            NodeKind::Module => "Module"@,
            NodeKind::File => "File"@,
            NodeKind::Symbol => "Symbol"@,
            NodeKind::Manifest => "Manifest"@,
            NodeKind::Package => "Package"@,
            NodeKind::Commit => "Commit"@,
            NodeKind::Framework => "Framework"@,
            NodeKind::Tooling => "Tooling"@,
            NodeKind::DataSource => "DataSource"@,
            NodeKind::DesignDoc => "DesignDoc"@,
            NodeKind::Concept => "Concept"@,
            NodeKind::Person => "Person"@,
        }
    }

    /// The name of a kind, as it is written in the code.
    pub fn title(self) -> (r: &'static str)
        ensures
            r@ == self.title_of(),
    {
        match self {
            NodeKind::Session => "Session",
            NodeKind::Turn => "Turn",
            NodeKind::Decision => "Decision",
            NodeKind::Implementation => "Implementation",
            NodeKind::Pattern => "Pattern",
            NodeKind::DebtSignal => "DebtSignal",
            NodeKind::Repo => "Repo",
            NodeKind::Module => "Module",
            NodeKind::File => "File",
            NodeKind::Symbol => "Symbol",
            NodeKind::Manifest => "Manifest",
            NodeKind::Package => "Package",
            NodeKind::Commit => "Commit",
            NodeKind::Framework => "Framework",
            NodeKind::Tooling => "Tooling",
            NodeKind::DataSource => "DataSource",
            NodeKind::DesignDoc => "DesignDoc",
            NodeKind::Concept => "Concept",
            NodeKind::Person => "Person",
        }
    }
}

/// How two nodes relate.
#[derive(Debug, Clone, Copy, PartialEq, Eq, Hash, Structural)]
pub enum EdgeKind {
    DecidedIn,
    Implements,
    Supersedes,
    Mentions,
    DerivedFrom,
    Touches,
    Produced,
    Contains,
    Defines,
    Imports,
    DependsOn,
    References,
    ChangedBy,
    CoChangesWith,
    Exhibits,
    Uses,
    RelatesTo,
}

impl EdgeKind {
    /// The stable tag of a kind.
    pub open spec fn name(self) -> Seq<char> {
        match self {
            EdgeKind::DecidedIn => "decided_in"@,
            EdgeKind::Implements => "implements"@,
            EdgeKind::Supersedes => "supersedes"@,
            EdgeKind::Mentions => "mentions"@,
            EdgeKind::DerivedFrom => "derived_from"@,
            EdgeKind::Touches => "touches"@,
            EdgeKind::Produced => "produced"@,
            EdgeKind::Contains => "contains"@,
            EdgeKind::Defines => "defines"@,
            EdgeKind::Imports => "imports"@,
            EdgeKind::DependsOn => "depends_on"@,
            EdgeKind::References => "references"@,
            EdgeKind::ChangedBy => "changed_by"@,
            EdgeKind::CoChangesWith => "co_changes_with"@,
            EdgeKind::Exhibits => "exhibits"@,
            EdgeKind::Uses => "uses"@,
            EdgeKind::RelatesTo => "relates_to"@,
        }
    }

    /// Stable lower-case tag.
    pub fn tag(self) -> (r: &'static str)
        ensures
            r@ == self.name(),
    {
        match self {
            EdgeKind::DecidedIn => "decided_in",
            EdgeKind::Implements => "implements",
            EdgeKind::Supersedes => "supersedes",
            EdgeKind::Mentions => "mentions",
            EdgeKind::DerivedFrom => "derived_from",
            EdgeKind::Touches => "touches",
            EdgeKind::Produced => "produced",
            EdgeKind::Contains => "contains",
            EdgeKind::Defines => "defines",
            EdgeKind::Imports => "imports",
            EdgeKind::DependsOn => "depends_on",
            EdgeKind::References => "references",
            EdgeKind::ChangedBy => "changed_by",
            EdgeKind::CoChangesWith => "co_changes_with",
            EdgeKind::Exhibits => "exhibits",
            EdgeKind::Uses => "uses",
            EdgeKind::RelatesTo => "relates_to",
        }
    }
}

/// Which agent produced a session.
#[derive(Debug, Clone, Copy, PartialEq, Eq, Structural)]
pub enum AgentKind {
    ClaudeCode,
    Codex,
    Aider,
    Cursor,
    OpenRouter,
    Otlp,
    Manual,
    Unknown,
}

impl AgentKind {
    /// The stable tag of an agent.
    pub open spec fn name(self) -> Seq<char> {
        match self {
            AgentKind::ClaudeCode => "claude_code"@,
            AgentKind::Codex => "codex"@,
            AgentKind::Aider => "aider"@,
            AgentKind::Cursor => "cursor"@,
            AgentKind::OpenRouter => "openrouter"@,
            AgentKind::Otlp => "otlp"@,
            AgentKind::Manual => "manual"@,
            AgentKind::Unknown => "unknown"@,
        }
    }

    /// Stable lower-case tag.
    pub fn tag(self) -> (r: &'static str)
        ensures
            r@ == self.name(),
    {
        match self {
            AgentKind::ClaudeCode => "claude_code",
            AgentKind::Codex => "codex",
            AgentKind::Aider => "aider",
            AgentKind::Cursor => "cursor",
            AgentKind::OpenRouter => "openrouter",
            AgentKind::Otlp => "otlp",
            AgentKind::Manual => "manual",
            AgentKind::Unknown => "unknown",
        }
    }
}

/// Role of a turn; `Unknown` stands for every record that is not recognised.
#[derive(Debug, Clone, Copy, PartialEq, Eq, Structural)]
pub enum MessageKind {
    User,
    Assistant,
    System,
    Summary,
    Thinking,
    Unknown,
}

// ---------------------------------------------------------------------------
// Optional strings
// ---------------------------------------------------------------------------

/// An optional string, viewed.
pub open spec fn opt(s: Option<String>) -> Option<Seq<char>> {
    match s {
        Some(x) => Some(x@),
        None => None,
    }
}

/// Copies an optional string.
pub fn copy_opt(s: &Option<String>) -> (r: Option<String>)
    ensures
        opt(r) == opt(*s),
{
    match s {
        Some(x) => Some(x.clone()),
        None => None,
    }
}

/// A string of its own with the characters of `s`.
pub fn owned(s: &str) -> (r: String)
    ensures
        r@ == s@,
{
    s.to_owned()
}

/// Copies a list of strings.
pub fn copy_strings(v: &Vec<String>) -> (r: Vec<String>)
    ensures
        text::string_views(r@) == text::string_views(v@),
{
    let mut out: Vec<String> = Vec::new();
    let n: usize = v.len();
    for i in 0..n
        invariant
            n == v@.len(),
            out@.len() == i,
            forall|j: int| 0 <= j < i ==> (#[trigger] out@[j])@ == v@[j]@,
    {
        out.push(v[i].clone());
    }
    assert(text::string_views(out@) =~= text::string_views(v@));
    out
}

// ---------------------------------------------------------------------------
// Provenance
// ---------------------------------------------------------------------------

/// Where a node came from.
pub struct Provenance {
    pub source_tool: String,
    pub native_session_id: Option<String>,
    pub native_path: Option<String>,
    pub connector_version: Option<String>,
    pub commit: Option<String>,
    pub span: Option<(usize, usize)>,
    /// Higher is richer; decides which copy is kept when sources overlap.
    pub source_priority: u8,
    pub confidence: F32Bits,
    pub extractor: String,
}

/// What a provenance says.
#[verifier::ext_equal]
pub struct ProvenanceV {
    pub source_tool: Seq<char>,
    pub native_session_id: Option<Seq<char>>,
    pub native_path: Option<Seq<char>>,
    pub connector_version: Option<Seq<char>>,
    pub commit: Option<Seq<char>>,
    pub span: Option<(usize, usize)>,
    pub source_priority: u8,
    pub confidence: F32Bits,
    pub extractor: Seq<char>,
}

impl View for Provenance {
    type V = ProvenanceV;

    open spec fn view(&self) -> ProvenanceV {
        ProvenanceV {
            source_tool: self.source_tool@,
            native_session_id: opt(self.native_session_id),
            native_path: opt(self.native_path),
            connector_version: opt(self.connector_version),
            commit: opt(self.commit),
            span: self.span,
            source_priority: self.source_priority,
            confidence: self.confidence,
            extractor: self.extractor@,
        }
    }
}

impl Clone for Provenance {
    fn clone(&self) -> (r: Provenance)
        ensures
            r@ == self@,
    {
        Provenance {
            source_tool: self.source_tool.clone(),
            native_session_id: copy_opt(&self.native_session_id),
            native_path: copy_opt(&self.native_path),
            connector_version: copy_opt(&self.connector_version),
            commit: copy_opt(&self.commit),
            span: self.span,
            source_priority: self.source_priority,
            confidence: self.confidence,
            extractor: self.extractor.clone(),
        }
    }
}

/// The provenance that says nothing.
pub open spec fn no_provenance() -> ProvenanceV {
    ProvenanceV {
        source_tool: Seq::empty(),
        native_session_id: None,
        native_path: None,
        connector_version: None,
        commit: None,
        span: None,
        source_priority: 0,
        confidence: 0,
        extractor: Seq::empty(),
    }
}

impl Default for Provenance {
    fn default() -> (r: Provenance)
        ensures
            r@ == no_provenance(),
    {
        Provenance {
            source_tool: String::new(),
            native_session_id: None,
            native_path: None,
            connector_version: None,
            commit: None,
            span: None,
            source_priority: 0,
            confidence: 0,
            extractor: String::new(),
        }
    }
}

/// An optional provenance, viewed.
pub open spec fn provenance_view(p: Option<Provenance>) -> Option<ProvenanceV> {
    match p {
        Some(x) => Some(x@),
        None => None,
    }
}

/// Copies an optional provenance.
pub fn copy_provenance(p: &Option<Provenance>) -> (r: Option<Provenance>)
    ensures
        provenance_view(r) == provenance_view(*p),
{
    match p {
        Some(x) => Some(x.clone()),
        None => None,
    }
}

// ---------------------------------------------------------------------------
// Nodes and edges
// ---------------------------------------------------------------------------

/// A graph node. `first_seen_ms` only ever moves back, `last_updated_ms` only forward.
pub struct Node {
    pub id: NodeId,
    pub kind: NodeKind,
    pub label: String,
    /// Full searchable text, redacted.
    pub body: String,
    /// A short single-line distillation of `body`.
    pub summary: String,
    pub provenance: Option<Provenance>,
    pub attrs: Attrs,
    pub first_seen_ms: i64,
    pub last_updated_ms: i64,
}

/// What a node says.
#[verifier::ext_equal]
pub struct NodeV {
    pub id: NodeId,
    pub kind: NodeKind,
    pub label: Seq<char>,
    pub body: Seq<char>,
    pub summary: Seq<char>,
    pub provenance: Option<ProvenanceV>,
    pub attrs: Map<Seq<char>, Seq<char>>,
    pub first_seen_ms: i64,
    pub last_updated_ms: i64,
}

impl View for Node {
    type V = NodeV;

    open spec fn view(&self) -> NodeV {
        NodeV {
            id: self.id,
            kind: self.kind,
            label: self.label@,
            body: self.body@,
            summary: self.summary@,
            provenance: provenance_view(self.provenance),
            attrs: self.attrs@,
            first_seen_ms: self.first_seen_ms,
            last_updated_ms: self.last_updated_ms,
        }
    }
}

impl Clone for Node {
    fn clone(&self) -> (r: Node)
        ensures
            r@ == self@,
    {
        Node {
            id: self.id,
            kind: self.kind,
            label: self.label.clone(),
            body: self.body.clone(),
            summary: self.summary.clone(),
            provenance: copy_provenance(&self.provenance),
            attrs: self.attrs.clone(),
            first_seen_ms: self.first_seen_ms,
            last_updated_ms: self.last_updated_ms,
        }
    }
}

/// A fresh node: no body, summary, provenance or attributes, seen once.
pub open spec fn new_node(kind: NodeKind, identity: Seq<char>, label: Seq<char>, now_ms: i64) -> NodeV {
    NodeV {
        id: id_of(kind, identity),
        kind,
        label,
        body: Seq::empty(),
        summary: Seq::empty(),
        provenance: None,
        attrs: Map::empty(),
        first_seen_ms: now_ms,
        last_updated_ms: now_ms,
    }
}

impl Node {
    /// A fresh node.
    pub fn new(kind: NodeKind, identity: &str, label: &str, now_ms: i64) -> (r: Node)
        ensures
            r@ == new_node(kind, identity@, label@, now_ms),
    {
        Node {
            id: node_id(kind, identity),
            kind,
            label: owned(label),
            body: String::new(),
            summary: String::new(),
            provenance: None,
            attrs: Attrs::new(),
            first_seen_ms: now_ms,
            last_updated_ms: now_ms,
        }
    }

    /// Sets the body.
    pub fn with_body(self, body: &str) -> (r: Node)
        ensures
            r@ == (NodeV { body: body@, ..self@ }),
    {
        Node { body: owned(body), ..self }
    }

    /// Sets the summary.
    pub fn with_summary(self, summary: &str) -> (r: Node)
        ensures
            r@ == (NodeV { summary: summary@, ..self@ }),
    {
        Node { summary: owned(summary), ..self }
    }

    /// Sets the provenance.
    pub fn with_provenance(self, p: Provenance) -> (r: Node)
        ensures
            r@ == (NodeV { provenance: Some(p@), ..self@ }),
    {
        Node { provenance: Some(p), ..self }
    }

    /// Sets one attribute.
    pub fn attr(self, k: &str, v: &str) -> (r: Node)
        ensures
            r@ == (NodeV { attrs: self@.attrs.insert(k@, v@), ..self@ }),
    {
        let mut attrs = self.attrs.clone();
        attrs.insert(k, v);
        Node { attrs, ..self }
    }
}

/// A typed, weighted edge.
pub struct Edge {
    pub from: NodeId,
    pub to: NodeId,
    pub kind: EdgeKind,
    pub weight: F32Bits,
    pub attrs: Attrs,
}

/// What an edge says.
#[verifier::ext_equal]
pub struct EdgeV {
    pub from: NodeId,
    pub to: NodeId,
    pub kind: EdgeKind,
    pub weight: F32Bits,
    pub attrs: Map<Seq<char>, Seq<char>>,
}

impl View for Edge {
    type V = EdgeV;

    open spec fn view(&self) -> EdgeV {
        EdgeV {
            from: self.from,
            to: self.to,
            kind: self.kind,
            weight: self.weight,
            attrs: self.attrs@,
        }
    }
}

impl Clone for Edge {
    fn clone(&self) -> (r: Edge)
        ensures
            r@ == self@,
    {
        Edge {
            from: self.from,
            to: self.to,
            kind: self.kind,
            weight: self.weight,
            attrs: self.attrs.clone(),
        }
    }
}

/// A plain edge: weight 1.0, no attributes.
pub open spec fn new_edge(from: NodeId, to: NodeId, kind: EdgeKind) -> EdgeV {
    EdgeV { from, to, kind, weight: F32_ONE, attrs: Map::empty() }
}

impl Edge {
    /// A plain edge.
    pub fn new(from: NodeId, to: NodeId, kind: EdgeKind) -> (r: Edge)
        ensures
            r@ == new_edge(from, to, kind),
    {
        Edge { from, to, kind, weight: F32_ONE, attrs: Attrs::new() }
    }
}

// ---------------------------------------------------------------------------
// Summaries
// ---------------------------------------------------------------------------

/// The cap of a summary, in characters.
pub const SUMMARY_MAX: usize = 180;

/// The text on one line: its words with single blanks between them.
pub open spec fn flattened(s: Seq<char>) -> Seq<char> {
    text::joined(text::runs(s, CharClass::Space), seq![' '])
}

/// The summary of a text: the flattened text up to its first sentence end within the cap, or
/// else its characters up to the cap with an ellipsis where it is longer.
pub open spec fn summary_of(s: Seq<char>) -> Seq<char> {
    let flat = flattened(s);
    let head = text::first_chars(flat, SUMMARY_MAX as int);
    let stop = text::first_index(head, CharClass::Stop);
    if stop < head.len() {
        flat.take(stop + 1)
    } else if flat.len() > SUMMARY_MAX {
        flat.take(SUMMARY_MAX as int).push('\u{2026}')
    } else {
        flat
    }
}

/// Puts a text on one line.
pub fn flatten(s: &[char]) -> (r: Vec<char>)
    ensures
        r@ == flattened(s@),
{
    let words = text::split_runs(s, CharClass::Space);
    let blank: [char; 1] = [' '];
    let r = text::join(&words, &blank);
    assert(blank@ =~= seq![' ']);
    r
}

/// Distills a text into a short single line.
pub fn summarize(body: &str) -> (r: String)
    ensures
        r@ == summary_of(body@),
{
    let flat = flatten(&text::chars_of(body));
    let head = text::take(&flat, SUMMARY_MAX);
    let stop: usize = text::find_class(&head, CharClass::Stop);
    if stop < head.len() {
        let out = text::part(&flat, 0, stop + 1);
        assert(out@ =~= flat@.take(stop + 1));
        return text::string_of(&out);
    }
    if flat.len() > SUMMARY_MAX {
        let mut out = text::part(&flat, 0, SUMMARY_MAX);
        assert(out@ =~= flat@.take(SUMMARY_MAX as int));
        out.push('\u{2026}');
        return text::string_of(&out);
    }
    text::string_of(&flat)
}

// ---------------------------------------------------------------------------
// Ids
// ---------------------------------------------------------------------------

/// The bytes that identify a node: its kind's tag, a zero byte, its identity.
pub open spec fn id_preimage(kind: NodeKind, identity: Seq<char>) -> Seq<u8> {
    vstd::utf8::encode_utf8(kind.name()) + seq![0u8] + vstd::utf8::encode_utf8(identity)
}

/// The id of a node: the first 16 bytes of the digest of its preimage, little end first.
pub open spec fn id_of(kind: NodeKind, identity: Seq<char>) -> NodeId {
    vstd::bytes::spec_u128_from_le_bytes(
        digest::blake3_digest(id_preimage(kind, identity))@.subrange(0, 16),
    )
}

/// Appends bytes.
pub fn append_bytes(out: &mut Vec<u8>, s: &[u8])
    ensures
        final(out)@ == old(out)@ + s@,
{
    let n: usize = s.len();
    for i in 0..n
        invariant
            n == s@.len(),
            out@ == old(out)@ + s@.take(i as int),
    {
        out.push(s[i]);
        assert(old(out)@ + s@.take(i + 1) =~= (old(out)@ + s@.take(i as int)).push(s@[i as int]));
    }
    assert(s@.take(n as int) =~= s@);
}

/// Content-addressed id of a node.
pub fn node_id(kind: NodeKind, identity: &str) -> (r: NodeId)
    ensures
        r == id_of(kind, identity@),
{
    let mut bytes: Vec<u8> = Vec::new();
    append_bytes(&mut bytes, kind.tag().as_bytes());
    bytes.push(0);
    append_bytes(&mut bytes, identity.as_bytes());
    assert(bytes@ =~= id_preimage(kind, identity@));
    let d = digest::blake3_hash(&bytes);
    u128_from_le_bytes(slice_subrange(&d, 0, 16))
}

// ---------------------------------------------------------------------------
// Transcripts
// ---------------------------------------------------------------------------

/// One normalized turn.
pub struct Turn {
    pub index: usize,
    pub kind: MessageKind,
    /// Redacted text.
    pub text: String,
    pub ts_ms: Option<i64>,
    /// Paths that the turn edited.
    pub touched_files: Vec<String>,
    /// The record as it was read. Kept in memory only: it may hold secrets.
    pub raw: Json,
}

/// What a turn says.
#[verifier::ext_equal]
pub struct TurnV {
    pub index: usize,
    pub kind: MessageKind,
    pub text: Seq<char>,
    pub ts_ms: Option<i64>,
    pub touched_files: Seq<Seq<char>>,
    pub raw: JsonV,
}

impl View for Turn {
    type V = TurnV;

    open spec fn view(&self) -> TurnV {
        TurnV {
            index: self.index,
            kind: self.kind,
            text: self.text@,
            ts_ms: self.ts_ms,
            touched_files: text::string_views(self.touched_files@),
            raw: self.raw@,
        }
    }
}

/// The views of a list of turns.
pub open spec fn turn_views(v: Seq<Turn>) -> Seq<TurnV> {
    v.map_values(|t: Turn| t@)
}

/// A normalized session.
pub struct CanonicalSession {
    pub native_session_id: String,
    pub agent: AgentKind,
    pub repo_root: Option<String>,
    pub commit: Option<String>,
    pub started_at_ms: Option<i64>,
    pub source_path: Option<String>,
    pub connector_version: Option<String>,
    pub turns: Vec<Turn>,
}

/// What a session says.
#[verifier::ext_equal]
pub struct CanonicalSessionV {
    pub native_session_id: Seq<char>,
    pub agent: AgentKind,
    pub repo_root: Option<Seq<char>>,
    pub commit: Option<Seq<char>>,
    pub started_at_ms: Option<i64>,
    pub source_path: Option<Seq<char>>,
    pub connector_version: Option<Seq<char>>,
    pub turns: Seq<TurnV>,
}

impl View for CanonicalSession {
    type V = CanonicalSessionV;

    open spec fn view(&self) -> CanonicalSessionV {
        CanonicalSessionV {
            native_session_id: self.native_session_id@,
            agent: self.agent,
            repo_root: opt(self.repo_root),
            commit: opt(self.commit),
            started_at_ms: self.started_at_ms,
            source_path: opt(self.source_path),
            connector_version: opt(self.connector_version),
            turns: turn_views(self.turns@),
        }
    }
}

// ---------------------------------------------------------------------------
// Laws
// ---------------------------------------------------------------------------

/// Different kinds of node have different tags.
pub proof fn node_tags_differ(a: NodeKind, b: NodeKind)
    requires
        a.name() == b.name(),
    ensures
        a == b,
{
    reveal_strlit("session");
    reveal_strlit("turn");
    reveal_strlit("decision");
    reveal_strlit("implementation");
    reveal_strlit("pattern");
    reveal_strlit("debt_signal");
    reveal_strlit("repo");
    reveal_strlit("module");
    reveal_strlit("file");
    reveal_strlit("symbol");
    reveal_strlit("manifest");
    reveal_strlit("package");
    reveal_strlit("commit");
    reveal_strlit("framework");
    reveal_strlit("tooling");
    reveal_strlit("data_source");
    reveal_strlit("design_doc");
    reveal_strlit("concept");
    reveal_strlit("person");
    let (x, y) = (a.name(), b.name());
    assert(x.len() == y.len() && x[0] == y[0] && x[1] == y[1] && x[2] == y[2] && x[3] == y[3]);
}

/// Different kinds of edge have different tags.
pub proof fn edge_tags_differ(a: EdgeKind, b: EdgeKind)
    requires
        a.name() == b.name(),
    ensures
        a == b,
{
    reveal_strlit("decided_in");
    reveal_strlit("implements");
    reveal_strlit("supersedes");
    reveal_strlit("mentions");
    reveal_strlit("derived_from");
    reveal_strlit("touches");
    reveal_strlit("produced");
    reveal_strlit("contains");
    reveal_strlit("defines");
    reveal_strlit("imports");
    reveal_strlit("depends_on");
    reveal_strlit("references");
    reveal_strlit("changed_by");
    reveal_strlit("co_changes_with");
    reveal_strlit("exhibits");
    reveal_strlit("uses");
    reveal_strlit("relates_to");
    let (x, y) = (a.name(), b.name());
    assert(x.len() == y.len() && x[0] == y[0] && x[1] == y[1] && x[2] == y[2] && x[3] == y[3]);
}

/// Different agents have different tags.
pub proof fn agent_tags_differ(a: AgentKind, b: AgentKind)
    requires
        a.name() == b.name(),
    ensures
        a == b,
{
    reveal_strlit("claude_code");
    reveal_strlit("codex");
    reveal_strlit("aider");
    reveal_strlit("cursor");
    reveal_strlit("openrouter");
    reveal_strlit("otlp");
    reveal_strlit("manual");
    reveal_strlit("unknown");
    let (x, y) = (a.name(), b.name());
    assert(x.len() == y.len() && x[0] == y[0] && x[1] == y[1]);
}

proof fn lemma_tag_bytes(kind: NodeKind)
    ensures
        vstd::utf8::is_ascii_chars(kind.name()),
        forall|i: int|
            0 <= i < vstd::utf8::encode_utf8(kind.name()).len() ==> #[trigger] vstd::utf8::encode_utf8(
                kind.name(),
            )[i] != 0,
{
    reveal_strlit("session");
    reveal_strlit("turn");
    reveal_strlit("decision");
    reveal_strlit("implementation");
    reveal_strlit("pattern");
    reveal_strlit("debt_signal");
    reveal_strlit("repo");
    reveal_strlit("module");
    reveal_strlit("file");
    reveal_strlit("symbol");
    reveal_strlit("manifest");
    reveal_strlit("package");
    reveal_strlit("commit");
    reveal_strlit("framework");
    reveal_strlit("tooling");
    reveal_strlit("data_source");
    reveal_strlit("design_doc");
    reveal_strlit("concept");
    reveal_strlit("person");
    let t = kind.name();
    assert forall|i: int| 0 <= i < t.len() implies '_' <= #[trigger] t[i] <= 'z' by {}
    vstd::utf8::is_ascii_chars_encode_utf8(t);
}

/// The kind and the identity can both be read back from what is hashed into an id: two nodes
/// that differ in either never hash the same bytes.
pub proof fn preimages_differ(kind1: NodeKind, identity1: Seq<char>, kind2: NodeKind, identity2: Seq<char>)
    requires
        id_preimage(kind1, identity1) == id_preimage(kind2, identity2),
    ensures
        kind1 == kind2,
        identity1 == identity2,
{
    lemma_tag_bytes(kind1);
    lemma_tag_bytes(kind2);
    let p = id_preimage(kind1, identity1);
    let a = vstd::utf8::encode_utf8(kind1.name());
    let b = vstd::utf8::encode_utf8(kind2.name());
    assert(p[a.len() as int] == 0);
    assert(p[b.len() as int] == 0);
    if a.len() < b.len() {
        assert(p[a.len() as int] == b[a.len() as int]);
    }
    if b.len() < a.len() {
        assert(p[b.len() as int] == a[b.len() as int]);
    }
    assert(a =~= p.take(a.len() as int));
    assert(b =~= p.take(a.len() as int));
    vstd::utf8::encode_utf8_decode_utf8(kind1.name());
    vstd::utf8::encode_utf8_decode_utf8(kind2.name());
    node_tags_differ(kind1, kind2);
    let c = vstd::utf8::encode_utf8(identity1);
    let d = vstd::utf8::encode_utf8(identity2);
    assert(c =~= p.skip((a.len() + 1) as int));
    assert(d =~= p.skip((a.len() + 1) as int));
    vstd::utf8::encode_utf8_decode_utf8(identity1);
    vstd::utf8::encode_utf8_decode_utf8(identity2);
}

/// A summary is never longer than its cap and an ellipsis.
pub proof fn summaries_are_short(s: Seq<char>)
    ensures
        summary_of(s).len() <= SUMMARY_MAX + 1,
{
    let flat = flattened(s);
    let head = text::first_chars(flat, SUMMARY_MAX as int);
    text::lemma_first_index(head, CharClass::Stop);
}

/// Whether a text stands on one line with single blanks between its words.
spec fn is_flat(t: Seq<char>) -> bool {
    forall|i: int|
        0 <= i < t.len() && CharClass::Space.has(#[trigger] t[i]) ==> t[i] == ' ' && 0 < i
            < t.len() - 1 && !CharClass::Space.has(t[i - 1])
}

proof fn lemma_runs_are_words(s: Seq<char>)
    ensures
        forall|i: int|
            0 <= i < text::runs(s, CharClass::Space).len() ==> (#[trigger] text::runs(
                s,
                CharClass::Space,
            )[i]).len() > 0,
        forall|i: int, j: int|
            0 <= i < text::runs(s, CharClass::Space).len() && 0 <= j < text::runs(
                s,
                CharClass::Space,
            )[i].len() ==> !CharClass::Space.has(
                #[trigger] text::runs(s, CharClass::Space)[i][j],
            ),
    decreases s.len(),
{
    let class = CharClass::Space;
    let all = text::runs(s, class);
    if s.len() == 0 {
        assert(all.len() == 0);
    } else {
        if class.has(s[0]) {
            lemma_runs_are_words(s.drop_first());
            assert(all == text::runs(s.drop_first(), class));
        } else {
            text::lemma_first_index(s, class);
            let k = text::first_index(s, class);
            let rest = text::runs(s.skip(k), class);
            assert(0 < k);
            lemma_runs_are_words(s.skip(k));
            assert(all == seq![s.take(k)] + rest);
            assert forall|i: int| 0 <= i < all.len() implies (#[trigger] all[i]).len() > 0 by {
                if i > 0 {
                    assert(all[i] == rest[i - 1]);
                }
            }
            assert forall|i: int, j: int|
                0 <= i < all.len() && 0 <= j < all[i].len() implies !class.has(
                #[trigger] all[i][j],
            ) by {
                if i > 0 {
                    assert(all[i] == rest[i - 1]);
                    assert(!class.has(rest[i - 1][j]));
                } else {
                    assert(all[i][j] == s[j]);
                }
            }
        }
    }
}

proof fn lemma_joined_is_flat(parts: Seq<Seq<char>>)
    requires
        forall|i: int| 0 <= i < parts.len() ==> (#[trigger] parts[i]).len() > 0,
        forall|i: int, j: int|
            0 <= i < parts.len() && 0 <= j < parts[i].len() ==> !CharClass::Space.has(
                #[trigger] parts[i][j],
            ),
    ensures
        is_flat(text::joined(parts, seq![' '])),
        parts.len() != 0 ==> text::joined(parts, seq![' ']).len() != 0,
    decreases parts.len(),
{
    let class = CharClass::Space;
    let t = text::joined(parts, seq![' ']);
    if parts.len() == 1 {
        assert forall|i: int| 0 <= i < t.len() implies !class.has(#[trigger] t[i]) by {
            assert(t[i] == parts[0][i]);
        }
    } else if parts.len() > 1 {
        let init = parts.drop_last();
        assert forall|i: int| 0 <= i < init.len() implies (#[trigger] init[i]).len() > 0 by {
            assert(init[i] == parts[i]);
        }
        assert forall|i: int, j: int|
            0 <= i < init.len() && 0 <= j < init[i].len() implies !class.has(
            #[trigger] init[i][j],
        ) by {
            assert(parts[i][j] == init[i][j]);
        }
        lemma_joined_is_flat(init);
        let a = text::joined(init, seq![' ']);
        let last = parts[parts.len() - 1];
        assert(t == a + seq![' '] + last);
        assert(last.len() > 0);
        assert forall|i: int| 0 <= i < t.len() && class.has(#[trigger] t[i]) implies t[i] == ' '
            && 0 < i < t.len() - 1 && !class.has(t[i - 1]) by {
            if i < a.len() {
                assert(t[i] == a[i]);
                assert(t[i - 1] == a[i - 1]);
            } else if i == a.len() {
                assert(t[i - 1] == a[a.len() - 1]);
                if class.has(a[a.len() - 1]) {
                    assert(false);
                }
            } else {
                assert(t[i] == parts[parts.len() - 1][i - a.len() - 1]);
            }
        }
    }
}

proof fn lemma_joined_first(w: Seq<char>, rest: Seq<Seq<char>>, sep: Seq<char>)
    requires
        rest.len() != 0,
    ensures
        text::joined(seq![w] + rest, sep) == w + sep + text::joined(rest, sep),
    decreases rest.len(),
{
    let all = seq![w] + rest;
    assert(all.drop_last() =~= seq![w] + rest.drop_last());
    assert(all.last() == rest.last());
    if rest.len() == 1 {
        assert(all.drop_last() =~= seq![w]);
        assert(text::joined(seq![w], sep) == w);
        assert(text::joined(all, sep) == text::joined(all.drop_last(), sep) + sep + all.last());
        assert(text::joined(all, sep) =~= w + sep + rest[0]);
    } else {
        lemma_joined_first(w, rest.drop_last(), sep);
        assert(text::joined(all, sep) =~= w + sep + text::joined(rest, sep));
    }
}

proof fn lemma_flat_is_kept(t: Seq<char>)
    requires
        is_flat(t),
    ensures
        flattened(t) == t,
    decreases t.len(),
{
    let class = CharClass::Space;
    if t.len() == 0 {
        assert(flattened(t) =~= t);
    } else {
        assert(!class.has(t[0]));
        text::lemma_first_index(t, class);
        let k = text::first_index(t, class);
        if k == t.len() {
            assert(t.skip(k) =~= Seq::empty());
            assert(text::runs(t.skip(k), class) =~= Seq::empty());
            assert(text::runs(t, class) =~= seq![t.take(k)]);
            assert(t.take(k) =~= t);
        } else {
            let u = t.skip(k + 1);
            assert(t.skip(k)[0] == t[k]);
            assert(t.skip(k).drop_first() =~= u);
            assert(text::runs(t.skip(k), class) == text::runs(u, class));
            assert(0 < k);
            assert forall|i: int| 0 <= i < u.len() && class.has(#[trigger] u[i]) implies u[i] == ' '
                && 0 < i < u.len() - 1 && !class.has(u[i - 1]) by {
                assert(u[i] == t[i + k + 1]);
                if i == 0 {
                    assert(class.has(t[k + 1]));
                    assert(!class.has(t[k]));
                } else {
                    assert(u[i - 1] == t[i + k]);
                }
            }
            lemma_flat_is_kept(u);
            let rest = text::runs(u, class);
            assert(rest.len() != 0) by {
                if rest.len() == 0 {
                    assert(flattened(u).len() == 0);
                }
            }
            lemma_joined_first(t.take(k), rest, seq![' ']);
            assert(text::runs(t, class) == seq![t.take(k)] + rest);
            assert(flattened(t) =~= t);
        }
    }
}

/// Summarizing a summary changes nothing.
pub proof fn summary_is_its_own_summary(s: Seq<char>)
    ensures
        summary_of(summary_of(s)) == summary_of(s),
{
    let max = SUMMARY_MAX as int;
    let flat = flattened(s);
    let head = text::first_chars(flat, max);
    let stop = text::first_index(head, CharClass::Stop);
    let t = summary_of(s);
    lemma_runs_are_words(s);
    lemma_joined_is_flat(text::runs(s, CharClass::Space));
    text::lemma_first_index(head, CharClass::Stop);
    assert forall|i: int| 0 <= i < t.len() && CharClass::Space.has(#[trigger] t[i]) implies t[i]
        == ' ' && 0 < i < t.len() - 1 && !CharClass::Space.has(t[i - 1]) by {
        if i < flat.len() {
            if t[i] == flat[i] {
                assert(CharClass::Space.has(flat[i]));
                assert(t[i - 1] == flat[i - 1]);
            }
        }
        if stop < head.len() {
            assert(t[t.len() - 1] == head[stop]);
            assert(!CharClass::Space.has(head[stop]));
        }
    }
    lemma_flat_is_kept(t);
    let again = text::first_chars(t, max);
    if stop < head.len() {
        assert(again =~= t);
        assert forall|j: int| 0 <= j < stop implies !CharClass::Stop.has(#[trigger] again[j]) by {
            assert(again[j] == head[j]);
        }
        text::lemma_first_index_is(again, CharClass::Stop, stop);
        assert(t.take(stop + 1) =~= t);
    } else {
        assert(again =~= head);
        if flat.len() > max {
            assert(t.take(max).push('\u{2026}') =~= t);
        }
    }
}

/// A fresh node is known by its kind and its identity, bears its label, and is as old as it is
/// new; it says nothing else yet.
pub proof fn fresh_nodes_are_plain(kind: NodeKind, identity: Seq<char>, label: Seq<char>, now: i64)
    ensures
        new_node(kind, identity, label, now).id == id_of(kind, identity),
        new_node(kind, identity, label, now).kind == kind,
        new_node(kind, identity, label, now).label == label,
        new_node(kind, identity, label, now).first_seen_ms == now,
        new_node(kind, identity, label, now).last_updated_ms == now,
        new_node(kind, identity, label, now).body.len() == 0,
        new_node(kind, identity, label, now).summary.len() == 0,
        new_node(kind, identity, label, now).provenance is None,
        new_node(kind, identity, label, now).attrs.dom().len() == 0,
{
}

/// A plain edge goes from the one to the other, weighs one and says nothing else.
pub proof fn fresh_edges_are_plain(from: NodeId, to: NodeId, kind: EdgeKind)
    ensures
        new_edge(from, to, kind).from == from,
        new_edge(from, to, kind).to == to,
        new_edge(from, to, kind).kind == kind,
        new_edge(from, to, kind).weight == 0x3f80_0000,
        new_edge(from, to, kind).attrs.dom().len() == 0,
{
}

/// The summary of a text that stands on one line: all of it where it is short and has no
/// sentence end, or else up to and with its first sentence end.
pub proof fn summaries_are_first_sentences(s: Seq<char>, stop: int)
    requires
        0 <= stop < flattened(s).len(),
        stop < 180,
        flattened(s)[stop] == '.' || flattened(s)[stop] == '!' || flattened(s)[stop] == '?',
        forall|i: int|
            0 <= i < stop ==> #[trigger] flattened(s)[i] != '.' && flattened(s)[i] != '!'
                && flattened(s)[i] != '?',
    ensures
        summary_of(s) == flattened(s).subrange(0, stop + 1),
{
    let flat = flattened(s);
    let head = text::first_chars(flat, 180);
    text::lemma_first_index(head, CharClass::Stop);
    assert(head[stop] == flat[stop]);
    assert(CharClass::Stop.has(head[stop]));
    let at = text::first_index(head, CharClass::Stop);
    if at < stop {
        assert(head[at] == flat[at]);
    }
    assert(flat.take(stop + 1) =~= flat.subrange(0, stop + 1));
}

/// A text without a sentence end near its beginning is cut, with an ellipsis where it is longer.
pub proof fn long_texts_are_cut(s: Seq<char>)
    requires
        forall|i: int|
            0 <= i < flattened(s).len() && i < 180 ==> #[trigger] flattened(s)[i] != '.'
                && flattened(s)[i] != '!' && flattened(s)[i] != '?',
    ensures
        flattened(s).len() <= 180 ==> summary_of(s) == flattened(s),
        flattened(s).len() > 180 ==> summary_of(s) == flattened(s).subrange(0, 180) + seq!['\u{2026}'],
{
    let flat = flattened(s);
    let head = text::first_chars(flat, 180);
    text::lemma_first_index(head, CharClass::Stop);
    let at = text::first_index(head, CharClass::Stop);
    if at < head.len() {
        assert(head[at] == flat[at]);
        assert(CharClass::Stop.has(head[at]));
    }
    if flat.len() > 180 {
        assert(flat.take(180).push('\u{2026}') =~= flat.subrange(0, 180) + seq!['\u{2026}']);
    }
}

/// The tags of the kinds of nodes.
pub proof fn node_kinds_have_these_tags(kind: NodeKind)
    ensures
        kind.name() == "session"@ <==> kind == NodeKind::Session,
        kind.name() == "turn"@ <==> kind == NodeKind::Turn,
        kind.name() == "decision"@ <==> kind == NodeKind::Decision,
        kind.name() == "implementation"@ <==> kind == NodeKind::Implementation,
        kind.name() == "pattern"@ <==> kind == NodeKind::Pattern,
        kind.name() == "debt_signal"@ <==> kind == NodeKind::DebtSignal,
        kind.name() == "repo"@ <==> kind == NodeKind::Repo,
        kind.name() == "module"@ <==> kind == NodeKind::Module,
        kind.name() == "file"@ <==> kind == NodeKind::File,
        kind.name() == "symbol"@ <==> kind == NodeKind::Symbol,
        kind.name() == "manifest"@ <==> kind == NodeKind::Manifest,
        kind.name() == "package"@ <==> kind == NodeKind::Package,
        kind.name() == "commit"@ <==> kind == NodeKind::Commit,
        kind.name() == "framework"@ <==> kind == NodeKind::Framework,
        kind.name() == "tooling"@ <==> kind == NodeKind::Tooling,
        kind.name() == "data_source"@ <==> kind == NodeKind::DataSource,
        kind.name() == "design_doc"@ <==> kind == NodeKind::DesignDoc,
        kind.name() == "concept"@ <==> kind == NodeKind::Concept,
        kind.name() == "person"@ <==> kind == NodeKind::Person,
{
    node_tags_differ_all(kind);
    assert(NodeKind::Session.name() == kind.name() ==> NodeKind::Session == kind);
    assert(NodeKind::Turn.name() == kind.name() ==> NodeKind::Turn == kind);
    assert(NodeKind::Decision.name() == kind.name() ==> NodeKind::Decision == kind);
    assert(NodeKind::Implementation.name() == kind.name() ==> NodeKind::Implementation == kind);
    assert(NodeKind::Pattern.name() == kind.name() ==> NodeKind::Pattern == kind);
    assert(NodeKind::DebtSignal.name() == kind.name() ==> NodeKind::DebtSignal == kind);
    assert(NodeKind::Repo.name() == kind.name() ==> NodeKind::Repo == kind);
    assert(NodeKind::Module.name() == kind.name() ==> NodeKind::Module == kind);
    assert(NodeKind::File.name() == kind.name() ==> NodeKind::File == kind);
    assert(NodeKind::Symbol.name() == kind.name() ==> NodeKind::Symbol == kind);
    assert(NodeKind::Manifest.name() == kind.name() ==> NodeKind::Manifest == kind);
    assert(NodeKind::Package.name() == kind.name() ==> NodeKind::Package == kind);
    assert(NodeKind::Commit.name() == kind.name() ==> NodeKind::Commit == kind);
    assert(NodeKind::Framework.name() == kind.name() ==> NodeKind::Framework == kind);
    assert(NodeKind::Tooling.name() == kind.name() ==> NodeKind::Tooling == kind);
    assert(NodeKind::DataSource.name() == kind.name() ==> NodeKind::DataSource == kind);
    assert(NodeKind::DesignDoc.name() == kind.name() ==> NodeKind::DesignDoc == kind);
    assert(NodeKind::Concept.name() == kind.name() ==> NodeKind::Concept == kind);
    assert(NodeKind::Person.name() == kind.name() ==> NodeKind::Person == kind);
}

proof fn node_tags_differ_all(kind: NodeKind)
    ensures
        forall|other: NodeKind| #[trigger] other.name() == kind.name() ==> other == kind,
{
    assert forall|other: NodeKind| #[trigger] other.name() == kind.name() implies other == kind by {
        node_tags_differ(other, kind);
    }
}

/// The tags of the kinds of edges.
pub proof fn edge_kinds_have_these_tags(kind: EdgeKind)
    ensures
        kind.name() == "decided_in"@ <==> kind == EdgeKind::DecidedIn,
        kind.name() == "implements"@ <==> kind == EdgeKind::Implements,
        kind.name() == "supersedes"@ <==> kind == EdgeKind::Supersedes,
        kind.name() == "mentions"@ <==> kind == EdgeKind::Mentions,
        kind.name() == "derived_from"@ <==> kind == EdgeKind::DerivedFrom,
        kind.name() == "touches"@ <==> kind == EdgeKind::Touches,
        kind.name() == "produced"@ <==> kind == EdgeKind::Produced,
        kind.name() == "contains"@ <==> kind == EdgeKind::Contains,
        kind.name() == "defines"@ <==> kind == EdgeKind::Defines,
        kind.name() == "imports"@ <==> kind == EdgeKind::Imports,
        kind.name() == "depends_on"@ <==> kind == EdgeKind::DependsOn,
        kind.name() == "references"@ <==> kind == EdgeKind::References,
        kind.name() == "changed_by"@ <==> kind == EdgeKind::ChangedBy,
        kind.name() == "co_changes_with"@ <==> kind == EdgeKind::CoChangesWith,
        kind.name() == "exhibits"@ <==> kind == EdgeKind::Exhibits,
        kind.name() == "uses"@ <==> kind == EdgeKind::Uses,
        kind.name() == "relates_to"@ <==> kind == EdgeKind::RelatesTo,
{
    assert forall|other: EdgeKind| #[trigger] other.name() == kind.name() implies other == kind by {
        edge_tags_differ(other, kind);
    }
    assert(EdgeKind::DecidedIn.name() == kind.name() ==> EdgeKind::DecidedIn == kind);
    assert(EdgeKind::Implements.name() == kind.name() ==> EdgeKind::Implements == kind);
    assert(EdgeKind::Supersedes.name() == kind.name() ==> EdgeKind::Supersedes == kind);
    assert(EdgeKind::Mentions.name() == kind.name() ==> EdgeKind::Mentions == kind);
    assert(EdgeKind::DerivedFrom.name() == kind.name() ==> EdgeKind::DerivedFrom == kind);
    assert(EdgeKind::Touches.name() == kind.name() ==> EdgeKind::Touches == kind);
    assert(EdgeKind::Produced.name() == kind.name() ==> EdgeKind::Produced == kind);
    assert(EdgeKind::Contains.name() == kind.name() ==> EdgeKind::Contains == kind);
    assert(EdgeKind::Defines.name() == kind.name() ==> EdgeKind::Defines == kind);
    assert(EdgeKind::Imports.name() == kind.name() ==> EdgeKind::Imports == kind);
    assert(EdgeKind::DependsOn.name() == kind.name() ==> EdgeKind::DependsOn == kind);
    assert(EdgeKind::References.name() == kind.name() ==> EdgeKind::References == kind);
    assert(EdgeKind::ChangedBy.name() == kind.name() ==> EdgeKind::ChangedBy == kind);
    assert(EdgeKind::CoChangesWith.name() == kind.name() ==> EdgeKind::CoChangesWith == kind);
    assert(EdgeKind::Exhibits.name() == kind.name() ==> EdgeKind::Exhibits == kind);
    assert(EdgeKind::Uses.name() == kind.name() ==> EdgeKind::Uses == kind);
    assert(EdgeKind::RelatesTo.name() == kind.name() ==> EdgeKind::RelatesTo == kind);
}

/// The id of a node is the beginning of the digest of its kind and its identity, with a zero
/// between them.
pub proof fn ids_are_digests(kind: NodeKind, identity: Seq<char>)
    ensures
        id_of(kind, identity) == vstd::bytes::spec_u128_from_le_bytes(
            digest::blake3_digest(
                vstd::utf8::encode_utf8(kind.name()) + seq![0u8] + vstd::utf8::encode_utf8(identity),
            )@.subrange(0, 16),
        ),
{
    assert(vstd::utf8::encode_utf8(kind.name()) + seq![0u8] + vstd::utf8::encode_utf8(identity)
        =~= id_preimage(kind, identity));
}

/// What a provenance says: all that it holds.
pub proof fn provenance_views_say_all(x: Provenance)
    ensures
        x@.source_tool == x.source_tool@,
        x@.native_session_id == opt(x.native_session_id),
        x@.native_path == opt(x.native_path),
        x@.connector_version == opt(x.connector_version),
        x@.commit == opt(x.commit),
        x@.span == x.span,
        x@.source_priority == x.source_priority,
        x@.confidence == x.confidence,
        x@.extractor == x.extractor@,
{
}

/// What a node says: all that it holds.
pub proof fn node_views_say_all(x: Node)
    ensures
        x@.id == x.id,
        x@.kind == x.kind,
        x@.label == x.label@,
        x@.body == x.body@,
        x@.summary == x.summary@,
        x@.provenance == provenance_view(x.provenance),
        x@.attrs == x.attrs@,
        x@.first_seen_ms == x.first_seen_ms,
        x@.last_updated_ms == x.last_updated_ms,
{
}

/// What an edge says: all that it holds.
pub proof fn edge_views_say_all(x: Edge)
    ensures
        x@.from == x.from,
        x@.to == x.to,
        x@.kind == x.kind,
        x@.weight == x.weight,
        x@.attrs == x.attrs@,
{
}

/// What a turn says: all that it holds.
pub proof fn turn_views_say_all(x: Turn)
    ensures
        x@.index == x.index,
        x@.kind == x.kind,
        x@.text == x.text@,
        x@.ts_ms == x.ts_ms,
        x@.touched_files == text::string_views(x.touched_files@),
        x@.raw == x.raw@,
{
}

/// What a session says: all that it holds.
pub proof fn canonical_session_views_say_all(x: CanonicalSession)
    ensures
        x@.native_session_id == x.native_session_id@,
        x@.agent == x.agent,
        x@.repo_root == opt(x.repo_root),
        x@.commit == opt(x.commit),
        x@.started_at_ms == x.started_at_ms,
        x@.source_path == opt(x.source_path),
        x@.connector_version == opt(x.connector_version),
        x@.turns == turn_views(x.turns@),
{
}

/// Viewing a list keeps all its items, in their order.
pub proof fn turn_views_keep_all(v: Seq<Turn>, i: int)
    requires
        0 <= i < v.len(),
    ensures
        turn_views(v).len() == v.len(),
        turn_views(v)[i] == v[i]@,
{
}

/// A flattened text stands on one line: white space in it is a single blank between two words.
pub proof fn flattened_texts_stand_on_one_line(s: Seq<char>, i: int)
    requires
        0 <= i < flattened(s).len(),
        text::is_space(flattened(s)[i]),
    ensures
        flattened(s)[i] == ' ',
        0 < i < flattened(s).len() - 1,
        !text::is_space(flattened(s)[i + 1]),
{
    lemma_runs_are_words(s);
    lemma_joined_is_flat(text::runs(s, CharClass::Space));
    let t = flattened(s);
    assert(CharClass::Space.has(t[i]));
    if i + 1 < t.len() && CharClass::Space.has(t[i + 1]) {
        assert(CharClass::Space.has(t[i + 1]));
    }
}

proof fn lemma_joined_holds(words: Seq<Seq<char>>, sep: Seq<char>, k: int)
    requires
        0 <= k < words.len(),
    ensures
        text::occurs(text::joined(words, sep), words[k]),
    decreases words.len(),
{
    let all = text::joined(words, sep);
    let w = words[k];
    if words.len() == 1 {
        assert(all.subrange(0, w.len() as int) =~= w);
        assert(text::occurs_at(all, w, 0));
    } else {
        let init = words.drop_last();
        let front = text::joined(init, sep);
        assert(all == front + sep + words.last());
        if k < init.len() {
            assert(init[k] == w);
            lemma_joined_holds(init, sep, k);
            let i = choose|i: int| #[trigger] text::occurs_at(front, w, i);
            assert(all.subrange(i, i + w.len()) =~= front.subrange(i, i + w.len()));
            assert(text::occurs_at(all, w, i));
        } else {
            let at = (front.len() + sep.len()) as int;
            assert(all.subrange(at, at + w.len()) =~= w);
            assert(text::occurs_at(all, w, at));
        }
    }
}

/// A flattened text keeps every word of the text.
pub proof fn flattened_texts_keep_their_words(s: Seq<char>, a: int, b: int)
    requires
        0 <= a < b <= s.len(),
        a == 0 || text::is_space(s[a - 1]),
        b == s.len() || text::is_space(s[b]),
        forall|j: int| a <= j < b ==> !text::is_space(#[trigger] s[j]),
    ensures
        text::occurs(flattened(s), s.subrange(a, b)),
{
    assert forall|j: int| a <= j < b implies !CharClass::Space.has(#[trigger] s[j]) by {}
    text::every_run_is_found(s, CharClass::Space, a, b);
    let words = text::runs(s, CharClass::Space);
    let k = choose|k: int| 0 <= k < words.len() && words[k] == s.subrange(a, b);
    lemma_joined_holds(words, seq![' '], k);
}

} // verus!
