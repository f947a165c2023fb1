//! Rollout transcripts of Codex: JSON lines, each an envelope around a payload.
//!
//! The format drifted over time, so a field is looked for both on the envelope and in the
//! payload. A tool call is a `function_call` payload whose `arguments` are JSON in a string.

use vstd::prelude::*;

use crate::ingest;
use crate::json;
use crate::json::{Json, JsonV};
use crate::model;
use crate::model::{AgentKind, CanonicalSession, CanonicalSessionV, MessageKind, Turn, TurnV};
use crate::redact;
use crate::text;
use crate::text::CharClass;

verus! {

// ---------------------------------------------------------------------------
// The name of a session
// ---------------------------------------------------------------------------

/// The shape of a UUID: groups of 8, 4, 4, 4 and 12 hexadecimal digits joined by hyphens.
pub open spec fn is_uuid(s: Seq<char>) -> bool {
    &&& s.len() == 36
    &&& forall|i: int|
        0 <= i < 36 ==> (if i == 8 || i == 13 || i == 18 || i == 23 {
            #[trigger] s[i] == '-'
        } else {
            ingest::is_hex(s[i])
        })
}

/// The native id in the stem of a rollout file: the UUID at its end, or else what follows its
/// last hyphen where that is at least eight bytes long, or else the whole stem.
pub open spec fn native_id(stem: Seq<char>) -> Seq<char> {
    let suffix = stem.skip(text::after_last(stem, CharClass::Is('-')));
    if stem.len() >= 36 && is_uuid(stem.skip(stem.len() - 36)) {
        stem.skip(stem.len() - 36)
    } else if text::has_class(stem, CharClass::Is('-')) && text::utf8_len(suffix) >= 8 {
        suffix
    } else {
        stem
    }
}

fn test_uuid(s: &[char]) -> (r: bool)
    ensures
        r == is_uuid(s@),
{
    if s.len() != 36 {
        return false;
    }
    for i in 0..36usize
        invariant
            s@.len() == 36,
            forall|j: int|
                0 <= j < i ==> (if j == 8 || j == 13 || j == 18 || j == 23 {
                    #[trigger] s@[j] == '-'
                } else {
                    ingest::is_hex(s@[j])
                }),
    {
        let hyphen = i == 8 || i == 13 || i == 18 || i == 23;
        if hyphen && s[i] != '-' || !hyphen && !ingest::test_hex(s[i]) {
            assert(!(if i == 8 || i == 13 || i == 18 || i == 23 {
                s@[i as int] == '-'
            } else {
                ingest::is_hex(s@[i as int])
            }));
            return false;
        }
    }
    true
}

/// Reads the native id out of a stem.
pub fn session_id(stem: &str) -> (r: String)
    ensures
        r@ == native_id(stem@),
{
    let s = text::chars_of(stem);
    let n: usize = s.len();
    if n >= 36 {
        let tail = text::part(&s, n - 36, n);
        assert(tail@ =~= s@.skip(n - 36));
        if test_uuid(&tail) {
            return text::string_of(&tail);
        }
    }
    let at: usize = text::find_after_last(&s, CharClass::Is('-'));
    proof {
        text::lemma_after_last(s@, CharClass::Is('-'));
    }
    let suffix = text::part(&s, at, n);
    assert(suffix@ =~= s@.skip(at as int));
    if text::contains_class(&s, CharClass::Is('-')) && text::byte_len(&suffix) >= 8 {
        return text::string_of(&suffix);
    }
    text::string_of(&s)
}

// ---------------------------------------------------------------------------
// What a record says
// ---------------------------------------------------------------------------

/// The payload of a record; the record itself where it has none.
pub open spec fn payload_of(v: JsonV) -> JsonV {
    match json::field(v, "payload"@) {
        Some(p) => p,
        None => v,
    }
}

/// A text under a key of the envelope, or else of the payload.
pub open spec fn probed(v: JsonV, key: Seq<char>) -> Option<Seq<char>> {
    match json::text_field(v, key) {
        Some(t) => Some(t),
        None => json::text_field(payload_of(v), key),
    }
}

/// A text under a key, or else under another.
pub open spec fn probed2(v: JsonV, key: Seq<char>, other: Seq<char>) -> Option<Seq<char>> {
    match probed(v, key) {
        Some(t) => Some(t),
        None => probed(v, other),
    }
}

/// The paths that parsed arguments name, added to those that are known: under the usual keys,
/// then inside `input` and `args`, then in each of the `edits`.
pub open spec fn paths_in(input: JsonV, known: Seq<Seq<char>>) -> Seq<Seq<char>>
    decreases input,
{
    let p1 = ingest::with_path(known, json::text_field(input, "file_path"@));
    let p2 = ingest::with_path(p1, json::text_field(input, "path"@));
    let p3 = ingest::with_path(p2, json::text_field(input, "filePath"@));
    let p4 = match json::field(input, "input"@) {
        Some(nested) => {
            proof {
                json::lemma_field_smaller(input, "input"@);
            }
            paths_in(nested, p3)
        },
        None => p3,
    };
    let p5 = match json::field(input, "args"@) {
        Some(nested) => {
            proof {
                json::lemma_field_smaller(input, "args"@);
            }
            paths_in(nested, p4)
        },
        None => p4,
    };
    match json::array_of(json::field(input, "edits"@)) {
        Some(edits) => {
            proof {
                json::lemma_field_smaller(input, "edits"@);
            }
            paths_in_all(edits, p5)
        },
        None => p5,
    }
}

/// The paths that a list of arguments names.
pub open spec fn paths_in_all(inputs: Seq<JsonV>, known: Seq<Seq<char>>) -> Seq<Seq<char>>
    decreases inputs,
{
    if inputs.len() == 0 {
        known
    } else {
        paths_in(inputs.last(), paths_in_all(inputs.drop_last(), known))
    }
}

/// Whether a block type carries text.
pub open spec fn is_text_type(kind: Seq<char>) -> bool {
    kind == "input_text"@ || kind == "output_text"@ || kind == "text"@
}

/// What content blocks add to a text, each on lines of its own.
pub open spec fn text_in_blocks(blocks: Seq<JsonV>) -> Seq<char>
    decreases blocks.len(),
{
    if blocks.len() == 0 {
        Seq::empty()
    } else {
        let before = text_in_blocks(blocks.drop_last());
        let b = blocks.last();
        match (json::text_field(b, "type"@), json::text_field(b, "text"@)) {
            (Some(kind), Some(t)) => if is_text_type(kind) {
                ingest::with_block(before, t)
            } else {
                before
            },
            _ => before,
        }
    }
}

/// The text of a content: a string, or text blocks.
pub open spec fn content_text(content: Option<JsonV>) -> Seq<char> {
    match content {
        Some(JsonV::Text(t)) => t,
        Some(JsonV::Array(blocks)) => text_in_blocks(blocks),
        _ => Seq::empty(),
    }
}

/// The type of a record: that of its payload, or else its own.
pub open spec fn record_type(v: JsonV) -> Option<Seq<char>> {
    match json::field(payload_of(v), "type"@) {
        Some(x) => json::text_of(Some(x)),
        None => json::text_field(v, "type"@),
    }
}

/// The role of a message.
pub open spec fn role_kind(role: Option<Seq<char>>) -> MessageKind {
    if role == Some("user"@) {
        MessageKind::User
    } else if role == Some("assistant"@) {
        MessageKind::Assistant
    } else if role == Some("system"@) {
        MessageKind::System
    } else {
        MessageKind::Unknown
    }
}

/// The role of a record: that of a message, `Assistant` for a tool call.
pub open spec fn record_kind(v: JsonV) -> MessageKind {
    if record_type(v) == Some("message"@) {
        role_kind(json::text_field(payload_of(v), "role"@))
    } else if record_type(v) == Some("function_call"@) {
        MessageKind::Assistant
    } else {
        MessageKind::Unknown
    }
}

/// The text of a record, before redaction.
pub open spec fn record_text(v: JsonV) -> Seq<char> {
    if record_type(v) == Some("message"@) {
        content_text(json::field(payload_of(v), "content"@))
    } else if record_type(v) == Some("function_call"@) {
        match json::text_field(payload_of(v), "name"@) {
            Some(name) => "[tool] "@ + name,
            None => Seq::empty(),
        }
    } else {
        Seq::empty()
    }
}

/// The paths that a record names: those in the arguments of a tool call.
pub open spec fn record_paths(v: JsonV) -> Seq<Seq<char>> {
    if record_type(v) == Some("function_call"@) {
        match json::text_field(payload_of(v), "arguments"@) {
            Some(args) => match json::json_parsed(args) {
                Some(parsed) => paths_in(parsed, Seq::empty()),
                None => Seq::empty(),
            },
            None => Seq::empty(),
        }
    } else {
        Seq::empty()
    }
}

/// The commit that a record names, and never anything that is not a commit id.
pub open spec fn record_commit(v: JsonV) -> Option<Seq<char>> {
    let nested = match json::field(payload_of(v), "git"@) {
        Some(git) => json::text_field(git, "commit"@),
        None => None,
    };
    ingest::commit_only(
        match nested {
            Some(t) => Some(t),
            None => probed2(v, "commit"@, "git_commit"@),
        },
    )
}

/// The time of a record.
pub open spec fn record_ms(v: JsonV) -> Option<i64> {
    ingest::ms_of(probed(v, "timestamp"@))
}

/// The turn that a record becomes.
pub open spec fn turn_of(v: JsonV, index: usize) -> TurnV {
    TurnV {
        index,
        kind: record_kind(v),
        text: redact::redacted(record_text(v)),
        ts_ms: record_ms(v),
        touched_files: record_paths(v),
        raw: v,
    }
}

/// The session that records make: its context comes from the first record that has it, and
/// each record becomes a turn.
pub open spec fn session_of(records: Seq<JsonV>, id: Seq<char>, path: Seq<char>) -> CanonicalSessionV {
    CanonicalSessionV {
        native_session_id: id,
        agent: AgentKind::Codex,
        repo_root: ingest::first_of(records, |v: JsonV| probed(v, "cwd"@)),
        commit: ingest::first_of(records, |v: JsonV| record_commit(v)),
        started_at_ms: ingest::first_of(records, |v: JsonV| record_ms(v)),
        source_path: Some(path),
        connector_version: ingest::first_of(
            records,
            |v: JsonV| probed2(v, "cli_version"@, "version"@),
        ),
        turns: Seq::new(records.len(), |i: int| turn_of(records[i], i as usize)),
    }
}

// ---------------------------------------------------------------------------
// Lowering
// ---------------------------------------------------------------------------

fn payload(v: &Json) -> (r: &Json)
    ensures
        r@ == payload_of(v@),
{
    match v.get("payload") {
        Some(p) => p,
        None => v,
    }
}

fn probe<'a>(v: &'a Json, key: &str) -> (r: Option<&'a String>)
    ensures
        json::str_opt(r) == probed(v@, key@),
{
    match v.get_text(key) {
        Some(t) => Some(t),
        None => payload(v).get_text(key),
    }
}

fn probe2<'a>(v: &'a Json, key: &str, other: &str) -> (r: Option<&'a String>)
    ensures
        json::str_opt(r) == probed2(v@, key@, other@),
{
    match probe(v, key) {
        Some(t) => Some(t),
        None => probe(v, other),
    }
}

fn collect_paths(input: &Json, touched: &mut Vec<String>)
    ensures
        text::string_views(final(touched)@) == paths_in(
            input@,
            text::string_views(old(touched)@),
        ),
    decreases input,
{
    ingest::add_path(touched, input.get_text("file_path"));
    ingest::add_path(touched, input.get_text("path"));
    ingest::add_path(touched, input.get_text("filePath"));
    match input.get("input") {
        Some(nested) => collect_paths(nested, touched),
        None => {},
    }
    match input.get("args") {
        Some(nested) => collect_paths(nested, touched),
        None => {},
    }
    let ghost known = text::string_views(touched@);
    match input.get("edits") {
        Some(e) => match e.as_array() {
            Some(edits) => {
                let n: usize = edits.len();
                let ghost all = json::items_view(edits@);
                proof {
                    json::lemma_items_view(edits@);
                    assert(all.take(0) =~= Seq::empty());
                }
                for i in 0..n
                    invariant
                        n == edits@.len(),
                        all == json::items_view(edits@),
                        all.len() == n,
                        forall|j: int| 0 <= j < n ==> #[trigger] all[j] == edits@[j]@,
                        decreases_to!(input => edits@),
                        text::string_views(touched@) == paths_in_all(all.take(i as int), known),
                {
                    assert(all.take(i + 1).drop_last() =~= all.take(i as int));
                    assert(all.take(i + 1).last() == edits@[i as int]@);
                    assert(decreases_to!(edits@ => edits@[i as int]));
                    collect_paths(&edits[i], touched);
                }
                assert(all.take(n as int) =~= all);
            },
            None => {},
        },
        None => {},
    }
}

fn extract_content(content: Option<&Json>) -> (r: Vec<char>)
    ensures
        r@ == content_text(json::view_opt(content)),
{
    let mut buf: Vec<char> = Vec::new();
    let content = match content {
        Some(c) => c,
        None => {
            return buf;
        },
    };
    if let Some(t) = content.as_text() {
        return text::chars_of(t.as_str());
    }
    match content.as_array() {
        Some(blocks) => {
            let n: usize = blocks.len();
            let ghost all = json::items_view(blocks@);
            proof {
                json::lemma_items_view(blocks@);
                assert(all.take(0) =~= Seq::empty());
            }
            for i in 0..n
                invariant
                    n == blocks@.len(),
                    all == json::items_view(blocks@),
                    all.len() == n,
                    forall|j: int| 0 <= j < n ==> #[trigger] all[j] == blocks@[j]@,
                    buf@ == text_in_blocks(all.take(i as int)),
            {
                assert(all.take(i + 1).drop_last() =~= all.take(i as int));
                assert(all.take(i + 1).last() == blocks@[i as int]@);
                match (blocks[i].get_text("type"), blocks[i].get_text("text")) {
                    (Some(kind), Some(t)) => {
                        let k = kind.as_str();
                        if text::same_str(k, "input_text") || text::same_str(k, "output_text")
                            || text::same_str(k, "text") {
                            ingest::add_block(&mut buf, t.as_str());
                        }
                    },
                    _ => {},
                }
            }
            assert(all.take(n as int) =~= all);
        },
        None => {},
    }
    buf
}

/// Whether a record has a type.
fn has_type(v: &Json, name: &str) -> (r: bool)
    ensures
        r == (record_type(v@) == Some(name@)),
{
    let t = match payload(v).get("type") {
        Some(x) => x.as_text(),
        None => v.get_text("type"),
    };
    match t {
        Some(t) => text::same_str(t.as_str(), name),
        None => false,
    }
}

fn role_of(v: &Json) -> (r: MessageKind)
    ensures
        r == role_kind(json::text_field(payload_of(v@), "role"@)),
{
    match payload(v).get_text("role") {
        Some(t) => {
            let t = t.as_str();
            if text::same_str(t, "user") {
                MessageKind::User
            } else if text::same_str(t, "assistant") {
                MessageKind::Assistant
            } else if text::same_str(t, "system") {
                MessageKind::System
            } else {
                MessageKind::Unknown
            }
        },
        None => MessageKind::Unknown,
    }
}

fn paths_of_call(v: &Json) -> (r: Vec<String>)
    requires
        record_type(v@) == Some("function_call"@),
    ensures
        text::string_views(r@) == record_paths(v@),
{
    let mut touched: Vec<String> = Vec::new();
    assert(text::string_views(touched@) =~= Seq::empty());
    match payload(v).get_text("arguments") {
        Some(args) => match json::parse(args.as_str()) {
            Some(parsed) => collect_paths(&parsed, &mut touched),
            None => {},
        },
        None => {},
    }
    touched
}

fn commit_of(v: &Json) -> (r: Option<String>)
    ensures
        model::opt(r) == record_commit(v@),
{
    let nested = match payload(v).get("git") {
        Some(git) => git.get_text("commit"),
        None => None,
    };
    let named = match nested {
        Some(t) => Some(t),
        None => probe2(v, "commit", "git_commit"),
    };
    match named {
        Some(t) => if ingest::test_commit(t.as_str()) {
            Some(t.clone())
        } else {
            None
        },
        None => None,
    }
}

fn ms_of(v: &Json) -> (r: Option<i64>)
    ensures
        r == record_ms(v@),
{
    match probe(v, "timestamp") {
        Some(t) => ingest::parse_iso_ms(t.as_str()),
        None => None,
    }
}

/// Lowers one record to a turn.
pub fn lower_record(v: Json, index: usize) -> (r: Turn)
    ensures
        r@ == turn_of(v@, index),
        !redact::has_secret(r@.text),
{
    let ts_ms = ms_of(&v);
    let mut buf: Vec<char> = Vec::new();
    let mut touched: Vec<String> = Vec::new();
    assert(text::string_views(touched@) =~= Seq::empty());
    let mut kind = MessageKind::Unknown;
    proof {
        reveal_strlit("message");
        reveal_strlit("function_call");
        assert("message"@[0] != "function_call"@[0]);
    }
    if has_type(&v, "message") {
        buf = extract_content(payload(&v).get("content"));
        kind = role_of(&v);
    } else if has_type(&v, "function_call") {
        match payload(&v).get_text("name") {
            Some(name) => {
                text::append_str(&mut buf, "[tool] ");
                text::append_str(&mut buf, name.as_str());
                assert(buf@ =~= "[tool] "@ + name@);
            },
            None => {},
        }
        touched = paths_of_call(&v);
        kind = MessageKind::Assistant;
    }
    let plain = text::string_of(&buf);
    Turn {
        index,
        kind,
        text: redact::redact(plain.as_str()),
        ts_ms,
        touched_files: touched,
        raw: v,
    }
}

/// The Codex connector.
pub struct Codex;

impl Codex {
    /// Lowers parsed records to a session.
    pub fn lower(&self, records: Vec<Json>, id: &str, source_path: &str) -> (r: CanonicalSession)
        ensures
            r@ == session_of(json::items_view(records@), id@, source_path@),
            ingest::secret_free(r@.turns),
    {
        let ghost rs = json::items_view(records@);
        proof {
            json::lemma_items_view(records@);
        }
        let mut turns: Vec<Turn> = Vec::new();
        let mut repo_root: Option<String> = None;
        let mut commit: Option<String> = None;
        let mut connector_version: Option<String> = None;
        let mut started_at_ms: Option<i64> = None;
        let ghost says_cwd = |v: JsonV| probed(v, "cwd"@);
        let ghost says_commit = |v: JsonV| record_commit(v);
        let ghost says_ms = |v: JsonV| record_ms(v);
        let ghost says_version = |v: JsonV| probed2(v, "cli_version"@, "version"@);
        let ghost all = records@;
        let mut i: usize = 0;
        let n: usize = records.len();
        assert(rs.take(0) =~= Seq::empty());
        for v in it: records
            invariant
                it.seq() == all,
                i == it.index(),
                n == all.len() == rs.len(),
                turns@.len() == i,
                forall|j: int| 0 <= j < n ==> #[trigger] rs[j] == all[j]@,
                model::opt(repo_root) == ingest::first_of(rs.take(i as int), says_cwd),
                model::opt(commit) == ingest::first_of(rs.take(i as int), says_commit),
                started_at_ms == ingest::first_of(rs.take(i as int), says_ms),
                model::opt(connector_version) == ingest::first_of(rs.take(i as int), says_version),
                says_cwd == (|v: JsonV| probed(v, "cwd"@)),
                says_commit == (|v: JsonV| record_commit(v)),
                says_ms == (|v: JsonV| record_ms(v)),
                says_version == (|v: JsonV| probed2(v, "cli_version"@, "version"@)),
                forall|j: int| 0 <= j < i ==> (#[trigger] turns@[j])@ == turn_of(rs[j], j as usize),
                forall|j: int| 0 <= j < i ==> !redact::has_secret((#[trigger] turns@[j])@.text),
        {
            assert(rs.take(i + 1).drop_last() =~= rs.take(i as int));
            assert(rs.take(i + 1).last() == rs[i as int]);
            assert(v@ == rs[i as int]);
            repo_root = ingest::keep_first(repo_root, probe(&v, "cwd"));
            if commit.is_none() {
                commit = commit_of(&v);
            }
            connector_version = ingest::keep_first(connector_version, probe2(&v, "cli_version", "version"));
            if started_at_ms.is_none() {
                started_at_ms = ms_of(&v);
            }
            let t = lower_record(v, i);
            turns.push(t);
            i += 1;
        }
        assert(rs.take(n as int) =~= rs);
        let r = CanonicalSession {
            native_session_id: model::owned(id),
            agent: AgentKind::Codex,
            repo_root,
            commit,
            started_at_ms,
            source_path: Some(model::owned(source_path)),
            connector_version,
            turns,
        };
        assert(r@.turns =~= session_of(rs, id@, source_path@).turns);
        r
    }

    /// Reads a rollout. The session is named by the id in the file's stem.
    pub fn read_session(&self, transcript: &str, stem: Option<&str>, source_path: &str) -> (r:
        CanonicalSession)
        ensures
            r@ == session_of(
                ingest::records(transcript@),
                native_id(
                    match stem {
                        Some(s) => s@,
                        None => "unknown"@,
                    },
                ),
                source_path@,
            ),
            ingest::secret_free(r@.turns),
    {
        let id = session_id(
            match stem {
                Some(s) => s,
                None => "unknown",
            },
        );
        self.lower(ingest::read_records(transcript), id.as_str(), source_path)
    }
}

// ---------------------------------------------------------------------------
// Laws
// ---------------------------------------------------------------------------

/// The texts of content blocks that are text.
pub open spec fn block_texts(blocks: Seq<JsonV>) -> Seq<Seq<char>> {
    blocks.filter_map(
        |b: JsonV|
            if (json::text_field(b, "type"@) == Some("input_text"@) || json::text_field(b, "type"@)
            == Some("output_text"@) || json::text_field(b, "type"@) == Some("text"@)) {
                json::text_field(b, "text"@)
            } else {
                None
            },
    )
}

/// The text of content blocks is that of all its text blocks: each of them occurs in it, and,
/// where none is empty, it is all of them in their order with line feeds between them.
pub proof fn every_text_block_is_kept(blocks: Seq<JsonV>)
    ensures
        forall|i: int|
            0 <= i < blocks.len() && ((#[trigger] json::text_field(
            blocks[i],
            "type"@,
        )) == Some("input_text"@) || json::text_field(blocks[i], "type"@) == Some("output_text"@)
            || json::text_field(blocks[i], "type"@) == Some("text"@)) ==> (json::text_field(
                blocks[i],
                "text"@,
            ) matches Some(t) ==> text::occurs(text_in_blocks(blocks), t)),
        (forall|k: int| 0 <= k < block_texts(blocks).len() ==> (#[trigger] block_texts(
            blocks,
        )[k]).len() != 0) ==> text_in_blocks(blocks) == text::joined(
            block_texts(blocks),
            seq!['\n'],
        ),
    decreases blocks.len(),
{
    let f = |b: JsonV|
        if (json::text_field(b, "type"@) == Some("input_text"@) || json::text_field(b, "type"@)
            == Some("output_text"@) || json::text_field(b, "type"@) == Some("text"@)) {
            json::text_field(b, "text"@)
        } else {
            None
        };
    let all = block_texts(blocks);
    let t = text_in_blocks(blocks);
    assert(all == blocks.filter_map(f));
    if blocks.len() == 0 {
        assert(t =~= text::joined(all, seq!['\n']));
    } else {
        let init = blocks.drop_last();
        let b = blocks.last();
        let before = text_in_blocks(init);
        every_text_block_is_kept(init);
        assert(block_texts(init) == init.filter_map(f));
        assert(f(b) == f(blocks.last()));
        if let Some(x) = f(b) {
            ingest::lemma_with_block(before, x);
            assert(t == ingest::with_block(before, x));
            assert(all =~= block_texts(init).push(x));
            assert(text::occurs_at(t, x, t.len() - x.len()));
        } else {
            assert(all =~= block_texts(init));
            assert(t == before);
            assert(t.subrange(0, before.len() as int) =~= before);
        }
        assert(text::has_prefix(t, before));
        assert forall|i: int| 0 <= i < blocks.len() && ((#[trigger] json::text_field(
            blocks[i],
            "type"@,
        )) == Some("input_text"@) || json::text_field(blocks[i], "type"@) == Some("output_text"@)
            || json::text_field(blocks[i], "type"@) == Some("text"@)) implies (json::text_field(
            blocks[i],
            "text"@,
        ) matches Some(x) ==> text::occurs(t, x)) by {
            if let Some(x) = json::text_field(blocks[i], "text"@) {
                if i < init.len() {
                    assert(init[i] == blocks[i]);
                    assert(json::text_field(init[i], "type"@) == json::text_field(blocks[i], "type"@));
                    ingest::lemma_occurs_in_front(t, before, x);
                } else {
                    assert(f(b) == Some(x));
                }
            }
        }
        if forall|k: int| 0 <= k < all.len() ==> (#[trigger] all[k]).len() != 0 {
            let ts = block_texts(init);
            assert forall|k: int| 0 <= k < ts.len() implies (#[trigger] ts[k]).len() != 0 by {
                assert(all[k] == ts[k]);
            }
            assert(before == text::joined(ts, seq!['\n']));
            if let Some(x) = f(b) {
                assert(all.last() == x && all.drop_last() =~= ts);
                if ts.len() == 0 {
                    assert(before.len() == 0);
                } else {
                    lemma_joined_not_empty(ts);
                    assert(t =~= text::joined(all, seq!['\n']));
                }
            }
        }
    }
}

proof fn lemma_joined_not_empty(parts: Seq<Seq<char>>)
    requires
        parts.len() != 0,
        forall|k: int| 0 <= k < parts.len() ==> (#[trigger] parts[k]).len() != 0,
    ensures
        text::joined(parts, seq!['\n']).len() != 0,
{
    assert(parts[parts.len() - 1].len() != 0);
}

/// A message says what its content says: a string as it is, and of blocks all those that are
/// text.
pub proof fn messages_are_read_whole(v: JsonV, index: usize, p: JsonV)
    requires
        json::field(v, "payload"@) == Some(p),
        json::field(p, "type"@) == Some(JsonV::Text("message"@)),
    ensures
        json::field(p, "content"@) matches Some(JsonV::Text(t)) ==> turn_of(v, index).text
            == redact::redacted(t),
        json::field(p, "content"@) matches Some(JsonV::Array(blocks)) ==> exists|raw: Seq<char>|
            turn_of(v, index).text == redact::redacted(raw) && forall|i: int|
                0 <= i < blocks.len() && ((#[trigger] json::text_field(blocks[i], "type"@)) == Some(
                    "input_text"@,
                ) || json::text_field(blocks[i], "type"@) == Some("output_text"@)
                    || json::text_field(blocks[i], "type"@) == Some("text"@)) ==> (json::text_field(
                    blocks[i],
                    "text"@,
                ) matches Some(t) ==> text::occurs(raw, t)),
        json::text_field(p, "role"@) == Some("user"@) ==> turn_of(v, index).kind
            == MessageKind::User,
        json::text_field(p, "role"@) == Some("assistant"@) ==> turn_of(v, index).kind
            == MessageKind::Assistant,
        json::text_field(p, "role"@) == Some("system"@) ==> turn_of(v, index).kind
            == MessageKind::System,
{
    reveal_strlit("user");
    reveal_strlit("assistant");
    reveal_strlit("system");
    assert("user"@[0] == 'u' && "assistant"@[0] == 'a' && "system"@[0] == 's');
    if let Some(JsonV::Array(blocks)) = json::field(p, "content"@) {
        every_text_block_is_kept(blocks);
        assert(turn_of(v, index).text == redact::redacted(text_in_blocks(blocks)));
    }
}

/// A tool call is a turn of the assistant that says which tool was called.
pub proof fn tool_calls_are_read(v: JsonV, index: usize, p: JsonV, name: Seq<char>)
    requires
        json::field(v, "payload"@) == Some(p),
        json::field(p, "type"@) == Some(JsonV::Text("function_call"@)),
        json::text_field(p, "name"@) == Some(name),
    ensures
        turn_of(v, index).kind == MessageKind::Assistant,
        turn_of(v, index).text == redact::redacted("[tool] "@ + name),
{
    lemma_types_differ();
}

proof fn lemma_types_differ()
    ensures
        "message"@ != "function_call"@,
{
    reveal_strlit("message");
    reveal_strlit("function_call");
    assert("message"@[0] != "function_call"@[0]);
}

/// A record without a payload is its own payload.
pub proof fn flat_records_are_read_too(v: JsonV, index: usize, t: Seq<char>)
    requires
        json::field(v, "payload"@) is None,
        json::field(v, "type"@) == Some(JsonV::Text("message"@)),
        json::field(v, "content"@) == Some(JsonV::Text(t)),
    ensures
        turn_of(v, index).text == redact::redacted(t),
        json::text_field(v, "role"@) == Some("user"@) ==> turn_of(v, index).kind
            == MessageKind::User,
{
}

/// Whether arguments name a path: under one of the keys, inside `input` or `args`, or in one of
/// the edits.
pub open spec fn names_path(input: JsonV, p: Seq<char>) -> bool
    decreases input,
{
    ||| json::text_field(input, "file_path"@) == Some(p)
    ||| json::text_field(input, "path"@) == Some(p)
    ||| json::text_field(input, "filePath"@) == Some(p)
    ||| match json::field(input, "input"@) {
        Some(nested) => {
            proof {
                json::lemma_field_smaller(input, "input"@);
            }
            names_path(nested, p)
        },
        None => false,
    }
    ||| match json::field(input, "args"@) {
        Some(nested) => {
            proof {
                json::lemma_field_smaller(input, "args"@);
            }
            names_path(nested, p)
        },
        None => false,
    }
    ||| match json::array_of(json::field(input, "edits"@)) {
        Some(edits) => {
            proof {
                json::lemma_field_smaller(input, "edits"@);
            }
            any_names_path(edits, p)
        },
        None => false,
    }
}

/// Whether one of some arguments names a path.
pub open spec fn any_names_path(inputs: Seq<JsonV>, p: Seq<char>) -> bool
    decreases inputs,
{
    inputs.len() != 0 && (any_names_path(inputs.drop_last(), p) || names_path(inputs.last(), p))
}

proof fn lemma_paths_in(input: JsonV, known: Seq<Seq<char>>)
    ensures
        forall|p: Seq<char>| #[trigger]
            paths_in(input, known).contains(p) <==> known.contains(p) || names_path(input, p),
        known.no_duplicates() ==> paths_in(input, known).no_duplicates(),
    decreases input,
{
    let f1 = json::text_field(input, "file_path"@);
    let f2 = json::text_field(input, "path"@);
    let f3 = json::text_field(input, "filePath"@);
    let p1 = ingest::with_path(known, f1);
    let p2 = ingest::with_path(p1, f2);
    let p3 = ingest::with_path(p2, f3);
    ingest::lemma_with_path(known, f1);
    ingest::lemma_with_path(p1, f2);
    ingest::lemma_with_path(p2, f3);
    let nested1 = json::field(input, "input"@);
    let nested2 = json::field(input, "args"@);
    let p4 = match nested1 {
        Some(x) => paths_in(x, p3),
        None => p3,
    };
    if let Some(x) = nested1 {
        json::lemma_field_smaller(input, "input"@);
        lemma_paths_in(x, p3);
    }
    let p5 = match nested2 {
        Some(x) => paths_in(x, p4),
        None => p4,
    };
    if let Some(x) = nested2 {
        json::lemma_field_smaller(input, "args"@);
        lemma_paths_in(x, p4);
    }
    if let Some(edits) = json::array_of(json::field(input, "edits"@)) {
        json::lemma_field_smaller(input, "edits"@);
        lemma_paths_in_all(edits, p5);
    }
    assert forall|p: Seq<char>| #[trigger] paths_in(input, known).contains(p) <==> known.contains(p)
        || names_path(input, p) by {
        assert(p1.contains(p) <==> known.contains(p) || f1 == Some(p));
        assert(p2.contains(p) <==> p1.contains(p) || f2 == Some(p));
        assert(p3.contains(p) <==> p2.contains(p) || f3 == Some(p));
        if let Some(x) = nested1 {
            assert(paths_in(x, p3).contains(p) <==> p3.contains(p) || names_path(x, p));
        }
        if let Some(x) = nested2 {
            assert(paths_in(x, p4).contains(p) <==> p4.contains(p) || names_path(x, p));
        }
        if let Some(edits) = json::array_of(json::field(input, "edits"@)) {
            assert(paths_in_all(edits, p5).contains(p) <==> p5.contains(p) || any_names_path(
                edits,
                p,
            ));
        }
    }
}

proof fn lemma_paths_in_all(inputs: Seq<JsonV>, known: Seq<Seq<char>>)
    ensures
        forall|p: Seq<char>| #[trigger]
            paths_in_all(inputs, known).contains(p) <==> known.contains(p) || any_names_path(
                inputs,
                p,
            ),
        known.no_duplicates() ==> paths_in_all(inputs, known).no_duplicates(),
    decreases inputs,
{
    if inputs.len() != 0 {
        let init = inputs.drop_last();
        assert(init =~= inputs.subrange(0, inputs.len() - 1));
        assert(decreases_to!(inputs => inputs.subrange(0, inputs.len() - 1)));
        let before = paths_in_all(init, known);
        lemma_paths_in_all(init, known);
        assert(inputs.last() == inputs[inputs.len() - 1]);
        assert(decreases_to!(inputs => inputs[inputs.len() - 1]));
        lemma_paths_in(inputs.last(), before);
        assert forall|p: Seq<char>| #[trigger] paths_in_all(inputs, known).contains(p) <==> known.contains(
            p,
        ) || any_names_path(inputs, p) by {
            assert(before.contains(p) <==> known.contains(p) || any_names_path(init, p));
            let after = paths_in(inputs.last(), before);
            assert(after.contains(p) <==> before.contains(p) || names_path(inputs.last(), p));
            assert(paths_in_all(inputs, known) == after);
            assert(any_names_path(inputs, p) <==> any_names_path(init, p) || names_path(
                inputs.last(),
                p,
            ));
        }
    }
}

/// The files of a turn are those that the arguments of its tool call name, each once.
pub proof fn touched_files_are_those_that_tools_name(
    v: JsonV,
    index: usize,
    p: JsonV,
    args: Seq<char>,
    parsed: JsonV,
    f: Seq<char>,
)
    requires
        json::field(v, "payload"@) == Some(p),
        json::field(p, "type"@) == Some(JsonV::Text("function_call"@)),
        json::text_field(p, "arguments"@) == Some(args),
        json::json_parsed(args) == Some(parsed),
    ensures
        turn_of(v, index).touched_files.no_duplicates(),
        turn_of(v, index).touched_files.contains(f) <==> names_path(parsed, f),
{
    lemma_types_differ();
    lemma_paths_in(parsed, Seq::empty());
    assert(paths_in(parsed, Seq::empty()).contains(f) <==> Seq::<Seq<char>>::empty().contains(f)
        || names_path(parsed, f));
}

/// A text is looked for on the envelope first, then in the payload.
pub proof fn envelopes_are_read_first(v: JsonV, key: Seq<char>)
    ensures
        json::text_field(v, key) matches Some(t) ==> probed(v, key) == Some(t),
        json::text_field(v, key) is None && (json::field(v, "payload"@) matches Some(p)) ==> probed(
            v,
            key,
        ) == json::text_field(json::field(v, "payload"@)->0, key),
        json::text_field(v, key) is None && json::field(v, "payload"@) is None ==> probed(v, key)
            is None,
{
}

/// The time of a turn is that of its record, on the envelope or in the payload.
pub proof fn turns_keep_their_times(v: JsonV, index: usize, t: Seq<char>)
    ensures
        json::text_field(v, "timestamp"@) == Some(t) ==> turn_of(v, index).ts_ms
            == ingest::rfc3339_ms(t),
        json::text_field(v, "timestamp"@) is None && (json::field(v, "payload"@) matches Some(p)
            && json::text_field(p, "timestamp"@) == Some(t)) ==> turn_of(v, index).ts_ms
            == ingest::rfc3339_ms(t),
{
}

/// A record names its commit inside `git`, or else under `commit` or `git_commit`.
pub proof fn commits_are_read(v: JsonV, p: JsonV, t: Seq<char>)
    requires
        json::field(v, "payload"@) == Some(p),
        ingest::is_commit(t),
    ensures
        json::field(p, "git"@) matches Some(git) && json::text_field(git, "commit"@) == Some(t)
            ==> record_commit(v) == Some(t),
        json::field(p, "git"@) is None && json::text_field(v, "commit"@) == Some(t) ==> record_commit(v)
            == Some(t),
        json::field(p, "git"@) is None && json::text_field(v, "commit"@) is None
            && json::text_field(p, "commit"@) == Some(t) ==> record_commit(v) == Some(t),
        json::field(p, "git"@) is None && json::text_field(v, "commit"@) is None
            && json::text_field(p, "commit"@) is None && json::text_field(v, "git_commit"@) == Some(
            t,
        ) ==> record_commit(v) == Some(t),
{
}

/// The context of a session comes from the first record that has it.
pub proof fn sessions_keep_their_context(records: Seq<JsonV>, id: Seq<char>, path: Seq<char>, i: int)
    requires
        0 <= i < records.len(),
    ensures
        probed(records[i], "cwd"@) is Some && (forall|j: int|
            0 <= j < i ==> probed(#[trigger] records[j], "cwd"@) is None) ==> session_of(
            records,
            id,
            path,
        ).repo_root == probed(records[i], "cwd"@),
        probed(records[i], "cli_version"@) is Some && (forall|j: int|
            0 <= j < i ==> probed(#[trigger] records[j], "cli_version"@) is None && probed(
                records[j],
                "version"@,
            ) is None) ==> session_of(records, id, path).connector_version == probed(
            records[i],
            "cli_version"@,
        ),
        probed(records[i], "cli_version"@) is None && probed(records[i], "version"@) is Some && (
        forall|j: int|
            0 <= j < i ==> probed(#[trigger] records[j], "cli_version"@) is None && probed(
                records[j],
                "version"@,
            ) is None) ==> session_of(records, id, path).connector_version == probed(
            records[i],
            "version"@,
        ),
        record_ms(records[i]) is Some && (forall|j: int|
            0 <= j < i ==> record_ms(#[trigger] records[j]) is None) ==> session_of(
            records,
            id,
            path,
        ).started_at_ms == record_ms(records[i]),
        record_commit(records[i]) is Some && (forall|j: int|
            0 <= j < i ==> record_commit(#[trigger] records[j]) is None) ==> session_of(
            records,
            id,
            path,
        ).commit == record_commit(records[i]),
        session_of(records, id, path).native_session_id == id,
        session_of(records, id, path).agent == AgentKind::Codex,
        session_of(records, id, path).source_path == Some(path),
{
    let says_cwd = |v: JsonV| probed(v, "cwd"@);
    let says_version = |v: JsonV| probed2(v, "cli_version"@, "version"@);
    let says_ms = |v: JsonV| record_ms(v);
    let says_commit = |v: JsonV| record_commit(v);
    if says_cwd(records[i]) is Some && forall|j: int|
        0 <= j < i ==> probed(#[trigger] records[j], "cwd"@) is None {
        ingest::the_first_that_says_counts(records, says_cwd, i);
    }
    if says_version(records[i]) is Some && forall|j: int|
        0 <= j < i ==> probed(#[trigger] records[j], "cli_version"@) is None && probed(
            records[j],
            "version"@,
        ) is None {
        ingest::the_first_that_says_counts(records, says_version, i);
    }
    if says_ms(records[i]) is Some && forall|j: int|
        0 <= j < i ==> record_ms(#[trigger] records[j]) is None {
        ingest::the_first_that_says_counts(records, says_ms, i);
    }
    if says_commit(records[i]) is Some && forall|j: int|
        0 <= j < i ==> record_commit(#[trigger] records[j]) is None {
        ingest::the_first_that_says_counts(records, says_commit, i);
    }
}

/// The UUID at the end of a stem names the session.
pub proof fn uuids_name_sessions(front: Seq<char>, uuid: Seq<char>)
    requires
        uuid.len() == 36,
        forall|i: int|
            0 <= i < 36 ==> (if i == 8 || i == 13 || i == 18 || i == 23 {
                #[trigger] uuid[i] == '-'
            } else {
                '0' <= uuid[i] <= '9' || 'a' <= uuid[i] <= 'f' || 'A' <= uuid[i] <= 'F'
            }),
    ensures
        native_id(front + uuid) == uuid,
{
    let stem = front + uuid;
    assert(stem.skip(stem.len() - 36) =~= uuid);
    assert(is_uuid(uuid));
}

/// Without a UUID, what follows the last hyphen names the session where that is at least eight
/// bytes long; else the whole stem does.
pub proof fn suffixes_name_sessions(front: Seq<char>, suffix: Seq<char>)
    requires
        forall|i: int| 0 <= i < suffix.len() ==> #[trigger] suffix[i] != '-',
        front.len() + suffix.len() < 35 || exists|i: int|
            0 <= i < 36 && !(if i == 8 || i == 13 || i == 18 || i == 23 {
                #[trigger] (front.push('-') + suffix)[front.len() + suffix.len() - 35 + i] == '-'
            } else {
                ingest::is_hex((front.push('-') + suffix)[front.len() + suffix.len() - 35 + i])
            }),
    ensures
        vstd::utf8::encode_utf8(suffix).len() >= 8 ==> native_id(front.push('-') + suffix) == suffix,
        vstd::utf8::encode_utf8(suffix).len() < 8 ==> native_id(front.push('-') + suffix)
            == front.push('-') + suffix,
        native_id(suffix) == suffix,
{
    let stem = front.push('-') + suffix;
    let at = front.len() as int + 1;
    assert forall|j: int| at <= j < stem.len() implies !CharClass::Is('-').has(
        #[trigger] stem[j],
    ) by {
        assert(stem[j] == suffix[j - at]);
    }
    assert(stem[at - 1] == '-');
    text::lemma_after_last_is(stem, CharClass::Is('-'), at);
    assert(stem.skip(at) =~= suffix);
    assert(text::has_class(stem, CharClass::Is('-'))) by {
        assert(CharClass::Is('-').has(stem[at - 1]));
    }
    if stem.len() >= 36 && is_uuid(stem.skip(stem.len() - 36)) {
        let tail = stem.skip(stem.len() - 36);
        let i = choose|i: int|
            0 <= i < 36 && !(if i == 8 || i == 13 || i == 18 || i == 23 {
                #[trigger] stem[front.len() + suffix.len() - 35 + i] == '-'
            } else {
                ingest::is_hex(stem[front.len() + suffix.len() - 35 + i])
            });
        assert(tail[i] == stem[stem.len() - 36 + i]);
    }
    if suffix.len() >= 36 && is_uuid(suffix.skip(suffix.len() - 36)) {
        let tail = suffix.skip(suffix.len() - 36);
        assert(tail[8] == '-');
        assert(tail[8] == suffix[suffix.len() - 36 + 8]);
    }
    if text::has_class(suffix, CharClass::Is('-')) {
        let j = choose|j: int| 0 <= j < suffix.len() && CharClass::Is('-').has(#[trigger] suffix[j]);
        assert(suffix[j] != '-');
    }
}

/// A message whose role is none of the three is of an unknown kind.
pub proof fn other_roles_are_unknown(role: Option<Seq<char>>)
    requires
        role != Some("user"@),
        role != Some("assistant"@),
        role != Some("system"@),
    ensures
        role_kind(role) == MessageKind::Unknown,
{
}

} // verus!
