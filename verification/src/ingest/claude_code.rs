//! Transcripts of the `claude_code` agent: JSON lines with an open set of record types.

use vstd::prelude::*;

use crate::ingest;
use crate::json;
use crate::json::{Json, JsonV};
use crate::model;
use crate::model::{AgentKind, CanonicalSession, CanonicalSessionV, MessageKind, Turn, TurnV};
use crate::redact;
use crate::text;

verus! {

// ---------------------------------------------------------------------------
// What a record says
// ---------------------------------------------------------------------------

/// The paths that a tool's input names, added to those that are known: under the four usual
/// keys, then in each of its `edits`.
pub open spec fn paths_in(input: JsonV, known: Seq<Seq<char>>) -> Seq<Seq<char>>
    decreases input,
{
    let p1 = ingest::with_path(known, json::text_field(input, "file_path"@));
    let p2 = ingest::with_path(p1, json::text_field(input, "path"@));
    let p3 = ingest::with_path(p2, json::text_field(input, "notebook_path"@));
    let p4 = ingest::with_path(p3, json::text_field(input, "filePath"@));
    match json::array_of(json::field(input, "edits"@)) {
        Some(edits) => {
            proof {
                json::lemma_field_smaller(input, "edits"@);
            }
            paths_in_all(edits, p4)
        },
        None => p4,
    }
}

/// The paths that a list of inputs names.
pub open spec fn paths_in_all(inputs: Seq<JsonV>, known: Seq<Seq<char>>) -> Seq<Seq<char>>
    decreases inputs,
{
    if inputs.len() == 0 {
        known
    } else {
        paths_in(inputs.last(), paths_in_all(inputs.drop_last(), known))
    }
}

/// What content blocks add to a text: the text of each `text` block, on lines of its own.
pub open spec fn text_in_blocks(blocks: Seq<JsonV>) -> Seq<char>
    decreases blocks.len(),
{
    if blocks.len() == 0 {
        Seq::empty()
    } else {
        let before = text_in_blocks(blocks.drop_last());
        let b = blocks.last();
        match (json::text_field(b, "type"@), json::text_field(b, "text"@)) {
            (Some(kind), Some(t)) => if kind == "text"@ {
                ingest::with_block(before, t)
            } else {
                before
            },
            _ => before,
        }
    }
}

/// The paths that the `tool_use` blocks name.
pub open spec fn paths_in_blocks(blocks: Seq<JsonV>) -> Seq<Seq<char>>
    decreases blocks.len(),
{
    if blocks.len() == 0 {
        Seq::empty()
    } else {
        let before = paths_in_blocks(blocks.drop_last());
        let b = blocks.last();
        match (json::text_field(b, "type"@), json::field(b, "input"@)) {
            (Some(kind), Some(input)) => if kind == "tool_use"@ {
                paths_in(input, before)
            } else {
                before
            },
            _ => before,
        }
    }
}

/// The text of a message: its content where that is a string, else that of its text blocks.
pub open spec fn message_text(msg: JsonV) -> Seq<char> {
    match json::field(msg, "content"@) {
        Some(JsonV::Text(t)) => t,
        Some(JsonV::Array(blocks)) => text_in_blocks(blocks),
        _ => Seq::empty(),
    }
}

/// The paths of a message.
pub open spec fn message_paths(msg: JsonV) -> Seq<Seq<char>> {
    match json::field(msg, "content"@) {
        Some(JsonV::Array(blocks)) => paths_in_blocks(blocks),
        _ => Seq::empty(),
    }
}

/// The type of a record.
pub open spec fn record_type(v: JsonV) -> Seq<char> {
    match json::text_field(v, "type"@) {
        Some(t) => t,
        None => Seq::empty(),
    }
}

/// The role of a record.
pub open spec fn record_kind(v: JsonV) -> MessageKind {
    let t = record_type(v);
    if t == "user"@ {
        MessageKind::User
    } else if t == "assistant"@ {
        MessageKind::Assistant
    } else if t == "system"@ {
        MessageKind::System
    } else if t == "summary"@ {
        MessageKind::Summary
    } else {
        MessageKind::Unknown
    }
}

/// The text of a record, before redaction.
pub open spec fn record_text(v: JsonV) -> Seq<char> {
    if record_type(v) == "summary"@ {
        match json::text_field(v, "summary"@) {
            Some(t) => t,
            None => Seq::empty(),
        }
    } else {
        match json::field(v, "message"@) {
            Some(msg) => message_text(msg),
            None => Seq::empty(),
        }
    }
}

/// The paths that a record names.
pub open spec fn record_paths(v: JsonV) -> Seq<Seq<char>> {
    if record_type(v) == "summary"@ {
        Seq::empty()
    } else {
        match json::field(v, "message"@) {
            Some(msg) => message_paths(msg),
            None => Seq::empty(),
        }
    }
}

/// The commit that a record names: `gitCommit`, or `commit` where there is none, and never
/// anything that is not a commit id.
pub open spec fn record_commit(v: JsonV) -> Option<Seq<char>> {
    ingest::commit_only(
        match json::field(v, "gitCommit"@) {
            Some(x) => json::text_of(Some(x)),
            None => json::text_field(v, "commit"@),
        },
    )
}

/// The time of a record.
pub open spec fn record_ms(v: JsonV) -> Option<i64> {
    ingest::ms_of(json::text_field(v, "timestamp"@))
}

/// The turn that a record becomes.
pub open spec fn turn_of(v: JsonV, index: usize) -> TurnV {
    TurnV {
        index,
        kind: record_kind(v),
        text: redact::redacted(record_text(v)),
        ts_ms: record_ms(v),
        touched_files: record_paths(v),
        raw: v,
    }
}

/// The session that records make: its context comes from the first record that has it, and
/// each record becomes a turn.
pub open spec fn session_of(records: Seq<JsonV>, id: Seq<char>, path: Seq<char>) -> CanonicalSessionV {
    CanonicalSessionV {
        native_session_id: id,
        agent: AgentKind::ClaudeCode,
        repo_root: ingest::first_of(records, |v: JsonV| json::text_field(v, "cwd"@)),
        commit: ingest::first_of(records, |v: JsonV| record_commit(v)),
        started_at_ms: ingest::first_of(records, |v: JsonV| record_ms(v)),
        source_path: Some(path),
        connector_version: ingest::first_of(records, |v: JsonV| json::text_field(v, "version"@)),
        turns: Seq::new(records.len(), |i: int| turn_of(records[i], i as usize)),
    }
}

// ---------------------------------------------------------------------------
// Lowering
// ---------------------------------------------------------------------------

fn collect_paths(input: &Json, touched: &mut Vec<String>)
    ensures
        text::string_views(final(touched)@) == paths_in(
            input@,
            text::string_views(old(touched)@),
        ),
    decreases input,
{
    ingest::add_path(touched, input.get_text("file_path"));
    ingest::add_path(touched, input.get_text("path"));
    ingest::add_path(touched, input.get_text("notebook_path"));
    ingest::add_path(touched, input.get_text("filePath"));
    let ghost known = text::string_views(touched@);
    match input.get("edits") {
        Some(e) => match e.as_array() {
            Some(edits) => {
                let n: usize = edits.len();
                let ghost all = json::items_view(edits@);
                proof {
                    json::lemma_items_view(edits@);
                    assert(all.take(0) =~= Seq::empty());
                }
                for i in 0..n
                    invariant
                        n == edits@.len(),
                        all == json::items_view(edits@),
                        all.len() == n,
                        forall|j: int| 0 <= j < n ==> #[trigger] all[j] == edits@[j]@,
                        decreases_to!(input => edits@),
                        text::string_views(touched@) == paths_in_all(all.take(i as int), known),
                {
                    assert(all.take(i + 1).drop_last() =~= all.take(i as int));
                    assert(all.take(i + 1).last() == edits@[i as int]@);
                    assert(decreases_to!(edits@ => edits@[i as int]));
                    collect_paths(&edits[i], touched);
                }
                assert(all.take(n as int) =~= all);
            },
            None => {},
        },
        None => {},
    }
}

fn extract_message(msg: &Json) -> (r: (Vec<char>, Vec<String>))
    ensures
        r.0@ == message_text(msg@),
        text::string_views(r.1@) == message_paths(msg@),
{
    let mut buf: Vec<char> = Vec::new();
    let mut touched: Vec<String> = Vec::new();
    assert(text::string_views(touched@) =~= Seq::empty());
    match msg.get("content") {
        Some(content) => {
            if let Some(t) = content.as_text() {
                return (text::chars_of(t.as_str()), touched);
            }
            match content.as_array() {
                Some(blocks) => {
                    let n: usize = blocks.len();
                    let ghost all = json::items_view(blocks@);
                    proof {
                        json::lemma_items_view(blocks@);
                        assert(all.take(0) =~= Seq::empty());
                    }
                    for i in 0..n
                        invariant
                            n == blocks@.len(),
                            all == json::items_view(blocks@),
                            all.len() == n,
                            forall|j: int| 0 <= j < n ==> #[trigger] all[j] == blocks@[j]@,
                            buf@ == text_in_blocks(all.take(i as int)),
                            text::string_views(touched@) == paths_in_blocks(all.take(i as int)),
                    {
                        assert(all.take(i + 1).drop_last() =~= all.take(i as int));
                        assert(all.take(i + 1).last() == blocks@[i as int]@);
                        let block = &blocks[i];
                        proof {
                            reveal_strlit("text");
                            reveal_strlit("tool_use");
                            assert("text"@[1] != "tool_use"@[1]);
                        }
                        match block.get_text("type") {
                            Some(kind) => {
                                if text::same_str(kind.as_str(), "text") {
                                    match block.get_text("text") {
                                        Some(t) => ingest::add_block(&mut buf, t.as_str()),
                                        None => {},
                                    }
                                } else if text::same_str(kind.as_str(), "tool_use") {
                                    match block.get("input") {
                                        Some(input) => collect_paths(input, &mut touched),
                                        None => {},
                                    }
                                }
                            },
                            None => {},
                        }
                    }
                    assert(all.take(n as int) =~= all);
                },
                None => {},
            }
        },
        None => {},
    }
    (buf, touched)
}

fn kind_of(v: &Json) -> (r: MessageKind)
    ensures
        r == record_kind(v@),
{
    match v.get_text("type") {
        Some(t) => {
            let t = t.as_str();
            if text::same_str(t, "user") {
                MessageKind::User
            } else if text::same_str(t, "assistant") {
                MessageKind::Assistant
            } else if text::same_str(t, "system") {
                MessageKind::System
            } else if text::same_str(t, "summary") {
                MessageKind::Summary
            } else {
                MessageKind::Unknown
            }
        },
        None => {
            proof {
                reveal_strlit("user");
                reveal_strlit("assistant");
                reveal_strlit("system");
                reveal_strlit("summary");
                assert("user"@.len() != 0 && "assistant"@.len() != 0);
                assert("system"@.len() != 0 && "summary"@.len() != 0);
            }
            MessageKind::Unknown
        },
    }
}

fn body_of(v: &Json) -> (r: (Vec<char>, Vec<String>))
    ensures
        r.0@ == record_text(v@),
        text::string_views(r.1@) == record_paths(v@),
{
    let none: Vec<String> = Vec::new();
    assert(text::string_views(none@) =~= Seq::empty());
    let summary = match v.get_text("type") {
        Some(t) => text::same_str(t.as_str(), "summary"),
        None => {
            proof {
                reveal_strlit("summary");
                assert("summary"@.len() != 0);
            }
            false
        },
    };
    if summary {
        return match v.get_text("summary") {
            Some(t) => (text::chars_of(t.as_str()), none),
            None => (Vec::new(), none),
        };
    }
    match v.get("message") {
        Some(msg) => extract_message(msg),
        None => (Vec::new(), none),
    }
}

fn commit_of(v: &Json) -> (r: Option<String>)
    ensures
        model::opt(r) == record_commit(v@),
{
    let named = match v.get("gitCommit") {
        Some(x) => x.as_text(),
        None => v.get_text("commit"),
    };
    match named {
        Some(t) => if ingest::test_commit(t.as_str()) {
            Some(t.clone())
        } else {
            None
        },
        None => None,
    }
}

fn ms_of(v: &Json) -> (r: Option<i64>)
    ensures
        r == record_ms(v@),
{
    match v.get_text("timestamp") {
        Some(t) => ingest::parse_iso_ms(t.as_str()),
        None => None,
    }
}

/// Lowers one record to a turn.
pub fn lower_record(v: Json, index: usize) -> (r: Turn)
    ensures
        r@ == turn_of(v@, index),
        !redact::has_secret(r@.text),
{
    let (buf, touched) = body_of(&v);
    let kind = kind_of(&v);
    let ts_ms = ms_of(&v);
    let plain = text::string_of(&buf);
    Turn {
        index,
        kind,
        text: redact::redact(plain.as_str()),
        ts_ms,
        touched_files: touched,
        raw: v,
    }
}

/// The connector for `claude_code` transcripts.
pub struct ClaudeCode;

impl ClaudeCode {
    /// Lowers parsed records to a session.
    pub fn lower(&self, records: Vec<Json>, id: &str, source_path: &str) -> (r: CanonicalSession)
        ensures
            r@ == session_of(json::items_view(records@), id@, source_path@),
            ingest::secret_free(r@.turns),
    {
        let ghost rs = json::items_view(records@);
        proof {
            json::lemma_items_view(records@);
        }
        let mut turns: Vec<Turn> = Vec::new();
        let mut repo_root: Option<String> = None;
        let mut commit: Option<String> = None;
        let mut connector_version: Option<String> = None;
        let mut started_at_ms: Option<i64> = None;
        let ghost says_cwd = |v: JsonV| json::text_field(v, "cwd"@);
        let ghost says_commit = |v: JsonV| record_commit(v);
        let ghost says_ms = |v: JsonV| record_ms(v);
        let ghost says_version = |v: JsonV| json::text_field(v, "version"@);
        let ghost all = records@;
        let mut i: usize = 0;
        let n: usize = records.len();
        assert(rs.take(0) =~= Seq::empty());
        for v in it: records
            invariant
                it.seq() == all,
                i == it.index(),
                n == all.len() == rs.len(),
                turns@.len() == i,
                forall|j: int| 0 <= j < n ==> #[trigger] rs[j] == all[j]@,
                model::opt(repo_root) == ingest::first_of(rs.take(i as int), says_cwd),
                model::opt(commit) == ingest::first_of(rs.take(i as int), says_commit),
                started_at_ms == ingest::first_of(rs.take(i as int), says_ms),
                model::opt(connector_version) == ingest::first_of(rs.take(i as int), says_version),
                says_cwd == (|v: JsonV| json::text_field(v, "cwd"@)),
                says_commit == (|v: JsonV| record_commit(v)),
                says_ms == (|v: JsonV| record_ms(v)),
                says_version == (|v: JsonV| json::text_field(v, "version"@)),
                forall|j: int| 0 <= j < i ==> (#[trigger] turns@[j])@ == turn_of(rs[j], j as usize),
                forall|j: int| 0 <= j < i ==> !redact::has_secret((#[trigger] turns@[j])@.text),
        {
            assert(rs.take(i + 1).drop_last() =~= rs.take(i as int));
            assert(rs.take(i + 1).last() == rs[i as int]);
            assert(v@ == rs[i as int]);
            repo_root = ingest::keep_first(repo_root, v.get_text("cwd"));
            if commit.is_none() {
                commit = commit_of(&v);
            }
            connector_version = ingest::keep_first(connector_version, v.get_text("version"));
            if started_at_ms.is_none() {
                started_at_ms = ms_of(&v);
            }
            let t = lower_record(v, i);
            turns.push(t);
            i += 1;
        }
        assert(rs.take(n as int) =~= rs);
        let r = CanonicalSession {
            native_session_id: model::owned(id),
            agent: AgentKind::ClaudeCode,
            repo_root,
            commit,
            started_at_ms,
            source_path: Some(model::owned(source_path)),
            connector_version,
            turns,
        };
        assert(r@.turns =~= session_of(rs, id@, source_path@).turns);
        r
    }

    /// Reads a transcript. The session is named after the file's stem.
    pub fn read_session(&self, transcript: &str, stem: Option<&str>, source_path: &str) -> (r:
        CanonicalSession)
        ensures
            r@ == session_of(
                ingest::records(transcript@),
                match stem {
                    Some(s) => s@,
                    None => "unknown"@,
                },
                source_path@,
            ),
            ingest::secret_free(r@.turns),
    {
        let id: &str = match stem {
            Some(s) => s,
            None => "unknown",
        };
        self.lower(ingest::read_records(transcript), id, source_path)
    }
}

// ---------------------------------------------------------------------------
// Laws
// ---------------------------------------------------------------------------

/// The texts of content blocks that are text.
pub open spec fn block_texts(blocks: Seq<JsonV>) -> Seq<Seq<char>> {
    blocks.filter_map(
        |b: JsonV|
            if json::text_field(b, "type"@) == Some("text"@) {
                json::text_field(b, "text"@)
            } else {
                None
            },
    )
}

/// The text of content blocks is that of all its text blocks: each of them occurs in it, and,
/// where none is empty, it is all of them in their order with line feeds between them.
pub proof fn every_text_block_is_kept(blocks: Seq<JsonV>)
    ensures
        forall|i: int|
            0 <= i < blocks.len() && (#[trigger] json::text_field(
            blocks[i],
            "type"@,
        )) == Some("text"@) ==> (json::text_field(
                blocks[i],
                "text"@,
            ) matches Some(t) ==> text::occurs(text_in_blocks(blocks), t)),
        (forall|k: int| 0 <= k < block_texts(blocks).len() ==> (#[trigger] block_texts(
            blocks,
        )[k]).len() != 0) ==> text_in_blocks(blocks) == text::joined(
            block_texts(blocks),
            seq!['\n'],
        ),
    decreases blocks.len(),
{
    let f = |b: JsonV|
        if json::text_field(b, "type"@) == Some("text"@) {
            json::text_field(b, "text"@)
        } else {
            None
        };
    let all = block_texts(blocks);
    let t = text_in_blocks(blocks);
    assert(all == blocks.filter_map(f));
    if blocks.len() == 0 {
        assert(t =~= text::joined(all, seq!['\n']));
    } else {
        let init = blocks.drop_last();
        let b = blocks.last();
        let before = text_in_blocks(init);
        every_text_block_is_kept(init);
        assert(block_texts(init) == init.filter_map(f));
        assert(f(b) == f(blocks.last()));
        if let Some(x) = f(b) {
            ingest::lemma_with_block(before, x);
            assert(t == ingest::with_block(before, x));
            assert(all =~= block_texts(init).push(x));
            assert(text::occurs_at(t, x, t.len() - x.len()));
        } else {
            assert(all =~= block_texts(init));
            assert(t == before);
            assert(t.subrange(0, before.len() as int) =~= before);
        }
        assert(text::has_prefix(t, before));
        assert forall|i: int| 0 <= i < blocks.len() && (#[trigger] json::text_field(
            blocks[i],
            "type"@,
        )) == Some("text"@) implies (json::text_field(
            blocks[i],
            "text"@,
        ) matches Some(x) ==> text::occurs(t, x)) by {
            if let Some(x) = json::text_field(blocks[i], "text"@) {
                if i < init.len() {
                    assert(init[i] == blocks[i]);
                    assert(json::text_field(init[i], "type"@) == Some("text"@));
                    ingest::lemma_occurs_in_front(t, before, x);
                } else {
                    assert(f(b) == Some(x));
                }
            }
        }
        if forall|k: int| 0 <= k < all.len() ==> (#[trigger] all[k]).len() != 0 {
            let ts = block_texts(init);
            assert forall|k: int| 0 <= k < ts.len() implies (#[trigger] ts[k]).len() != 0 by {
                assert(all[k] == ts[k]);
            }
            assert(before == text::joined(ts, seq!['\n']));
            if let Some(x) = f(b) {
                assert(all.last() == x && all.drop_last() =~= ts);
                if ts.len() == 0 {
                    assert(before.len() == 0);
                } else {
                    lemma_joined_not_empty(ts);
                    assert(t =~= text::joined(all, seq!['\n']));
                }
            }
        }
    }
}

proof fn lemma_joined_not_empty(parts: Seq<Seq<char>>)
    requires
        parts.len() != 0,
        forall|k: int| 0 <= k < parts.len() ==> (#[trigger] parts[k]).len() != 0,
    ensures
        text::joined(parts, seq!['\n']).len() != 0,
{
    assert(parts[parts.len() - 1].len() != 0);
}

/// A record says what its message says: a content that is a string is its text, and so is a
/// summary; a content of blocks has the texts of its text blocks.
pub proof fn messages_are_read_whole(v: JsonV, index: usize, msg: JsonV)
    requires
        json::field(v, "message"@) == Some(msg),
        json::text_field(v, "type"@) != Some("summary"@),
    ensures
        json::field(msg, "content"@) matches Some(JsonV::Text(t)) ==> turn_of(v, index).text
            == redact::redacted(t),
        json::field(msg, "content"@) matches Some(JsonV::Array(blocks)) ==> exists|raw: Seq<char>|
            turn_of(v, index).text == redact::redacted(raw) && forall|i: int|
                0 <= i < blocks.len() && (#[trigger] json::text_field(blocks[i], "type"@)) == Some(
                    "text"@,
                ) ==> (json::text_field(blocks[i], "text"@) matches Some(t) ==> text::occurs(raw, t)),
{
    lemma_not_summary(v);
    if let Some(JsonV::Array(blocks)) = json::field(msg, "content"@) {
        every_text_block_is_kept(blocks);
        assert(turn_of(v, index).text == redact::redacted(text_in_blocks(blocks)));
    }
}

proof fn lemma_not_summary(v: JsonV)
    requires
        json::text_field(v, "type"@) != Some("summary"@),
    ensures
        record_type(v) != "summary"@,
{
    reveal_strlit("summary");
    assert(Seq::<char>::empty().len() != "summary"@.len());
}

/// A summary record says its summary, and touches nothing.
pub proof fn summaries_are_read(v: JsonV, index: usize, t: Seq<char>)
    requires
        json::text_field(v, "type"@) == Some("summary"@),
        json::text_field(v, "summary"@) == Some(t),
    ensures
        turn_of(v, index).kind == MessageKind::Summary,
        turn_of(v, index).text == redact::redacted(t),
        turn_of(v, index).touched_files.len() == 0,
{
    lemma_types_differ();
}

proof fn lemma_types_differ()
    ensures
        "user"@ != "assistant"@,
        "user"@ != "system"@,
        "user"@ != "summary"@,
        "assistant"@ != "system"@,
        "assistant"@ != "summary"@,
        "system"@ != "summary"@,
{
    reveal_strlit("user");
    reveal_strlit("assistant");
    reveal_strlit("system");
    reveal_strlit("summary");
    assert("user"@[0] == 'u' && "assistant"@[0] == 'a' && "system"@[1] == 'y' && "summary"@[1]
        == 'u');
    assert("system"@[0] == 's' && "summary"@[0] == 's');
}

/// The type of a record tells who speaks.
pub proof fn types_tell_who_speaks(v: JsonV, index: usize)
    ensures
        json::text_field(v, "type"@) == Some("user"@) <==> turn_of(v, index).kind
            == MessageKind::User,
        json::text_field(v, "type"@) == Some("assistant"@) <==> turn_of(v, index).kind
            == MessageKind::Assistant,
        json::text_field(v, "type"@) == Some("system"@) <==> turn_of(v, index).kind
            == MessageKind::System,
        json::text_field(v, "type"@) == Some("summary"@) <==> turn_of(v, index).kind
            == MessageKind::Summary,
{
    lemma_types_differ();
    reveal_strlit("user");
    reveal_strlit("assistant");
    reveal_strlit("system");
    reveal_strlit("summary");
}

/// Whether an input of a tool names a path: under one of the four keys, or in one of its edits.
pub open spec fn names_path(input: JsonV, p: Seq<char>) -> bool
    decreases input,
{
    ||| json::text_field(input, "file_path"@) == Some(p)
    ||| json::text_field(input, "path"@) == Some(p)
    ||| json::text_field(input, "notebook_path"@) == Some(p)
    ||| json::text_field(input, "filePath"@) == Some(p)
    ||| match json::array_of(json::field(input, "edits"@)) {
        Some(edits) => {
            proof {
                json::lemma_field_smaller(input, "edits"@);
            }
            any_names_path(edits, p)
        },
        None => false,
    }
}

/// Whether one of some inputs names a path.
pub open spec fn any_names_path(inputs: Seq<JsonV>, p: Seq<char>) -> bool
    decreases inputs,
{
    inputs.len() != 0 && (any_names_path(inputs.drop_last(), p) || names_path(inputs.last(), p))
}

proof fn lemma_paths_in(input: JsonV, known: Seq<Seq<char>>)
    ensures
        forall|p: Seq<char>| #[trigger]
            paths_in(input, known).contains(p) <==> known.contains(p) || names_path(input, p),
        known.no_duplicates() ==> paths_in(input, known).no_duplicates(),
    decreases input,
{
    let f1 = json::text_field(input, "file_path"@);
    let f2 = json::text_field(input, "path"@);
    let f3 = json::text_field(input, "notebook_path"@);
    let f4 = json::text_field(input, "filePath"@);
    let p1 = ingest::with_path(known, f1);
    let p2 = ingest::with_path(p1, f2);
    let p3 = ingest::with_path(p2, f3);
    let p4 = ingest::with_path(p3, f4);
    ingest::lemma_with_path(known, f1);
    ingest::lemma_with_path(p1, f2);
    ingest::lemma_with_path(p2, f3);
    ingest::lemma_with_path(p3, f4);
    assert forall|p: Seq<char>| #[trigger] p4.contains(p) <==> known.contains(p) || f1 == Some(p)
        || f2 == Some(p) || f3 == Some(p) || f4 == Some(p) by {
        assert(p3.contains(p) <==> p2.contains(p) || f3 == Some(p));
        assert(p2.contains(p) <==> p1.contains(p) || f2 == Some(p));
        assert(p1.contains(p) <==> known.contains(p) || f1 == Some(p));
    }
    match json::array_of(json::field(input, "edits"@)) {
        Some(edits) => {
            json::lemma_field_smaller(input, "edits"@);
            lemma_paths_in_all(edits, p4);
            assert forall|p: Seq<char>| #[trigger] paths_in(input, known).contains(p) <==> known.contains(
                p,
            ) || names_path(input, p) by {
                assert(paths_in_all(edits, p4).contains(p) <==> p4.contains(p) || any_names_path(
                    edits,
                    p,
                ));
                assert(p4.contains(p) <==> known.contains(p) || f1 == Some(p) || f2 == Some(p) || f3
                    == Some(p) || f4 == Some(p));
            }
        },
        None => {},
    }
}

proof fn lemma_paths_in_all(inputs: Seq<JsonV>, known: Seq<Seq<char>>)
    ensures
        forall|p: Seq<char>| #[trigger]
            paths_in_all(inputs, known).contains(p) <==> known.contains(p) || any_names_path(
                inputs,
                p,
            ),
        known.no_duplicates() ==> paths_in_all(inputs, known).no_duplicates(),
    decreases inputs,
{
    if inputs.len() != 0 {
        let init = inputs.drop_last();
        assert(init =~= inputs.subrange(0, inputs.len() - 1));
        assert(decreases_to!(inputs => inputs.subrange(0, inputs.len() - 1)));
        let before = paths_in_all(init, known);
        lemma_paths_in_all(init, known);
        assert(inputs.last() == inputs[inputs.len() - 1]);
        assert(decreases_to!(inputs => inputs[inputs.len() - 1]));
        lemma_paths_in(inputs.last(), before);
        assert forall|p: Seq<char>| #[trigger] paths_in_all(inputs, known).contains(p) <==> known.contains(
            p,
        ) || any_names_path(inputs, p) by {
            assert(before.contains(p) <==> known.contains(p) || any_names_path(init, p));
            let after = paths_in(inputs.last(), before);
            assert(after.contains(p) <==> before.contains(p) || names_path(inputs.last(), p));
            assert(paths_in_all(inputs, known) == after);
            assert(any_names_path(inputs, p) <==> any_names_path(init, p) || names_path(
                inputs.last(),
                p,
            ));
        }
    }
}

proof fn lemma_paths_in_blocks(blocks: Seq<JsonV>)
    ensures
        forall|p: Seq<char>| #[trigger]
            paths_in_blocks(blocks).contains(p) <==> exists|i: int|
                0 <= i < blocks.len() && json::text_field(#[trigger] blocks[i], "type"@) == Some(
                    "tool_use"@,
                ) && (json::field(blocks[i], "input"@) matches Some(input) && names_path(input, p)),
        paths_in_blocks(blocks).no_duplicates(),
    decreases blocks.len(),
{
    if blocks.len() != 0 {
        let init = blocks.drop_last();
        let before = paths_in_blocks(init);
        let b = blocks[blocks.len() - 1];
        lemma_paths_in_blocks(init);
        if let Some(input) = json::field(b, "input"@) {
            lemma_paths_in(input, before);
        }
        assert forall|p: Seq<char>| #[trigger] paths_in_blocks(blocks).contains(p) <==> exists|i: int|
            0 <= i < blocks.len() && json::text_field(#[trigger] blocks[i], "type"@) == Some(
                "tool_use"@,
            ) && (json::field(blocks[i], "input"@) matches Some(input) && names_path(input, p)) by {
            if before.contains(p) {
                let i = choose|i: int|
                    0 <= i < init.len() && json::text_field(#[trigger] init[i], "type"@) == Some(
                        "tool_use"@,
                    ) && (json::field(init[i], "input"@) matches Some(input) && names_path(input, p));
                assert(blocks[i] == init[i]);
            }
            if exists|i: int|
                0 <= i < blocks.len() && json::text_field(#[trigger] blocks[i], "type"@) == Some(
                    "tool_use"@,
                ) && (json::field(blocks[i], "input"@) matches Some(input) && names_path(
                    input,
                    p,
                )) {
                let i = choose|i: int|
                    0 <= i < blocks.len() && json::text_field(#[trigger] blocks[i], "type"@) == Some(
                        "tool_use"@,
                    ) && (json::field(blocks[i], "input"@) matches Some(input) && names_path(
                        input,
                        p,
                    ));
                if i < init.len() {
                    assert(init[i] == blocks[i]);
                    assert(before.contains(p));
                }
            }
        }
    }
}

/// The files of a turn are those that its tools name, each once: under one of the four keys of
/// an input, or in one of its edits.
pub proof fn touched_files_are_those_that_tools_name(v: JsonV, index: usize, p: Seq<char>)
    ensures
        turn_of(v, index).touched_files.no_duplicates(),
        turn_of(v, index).touched_files.contains(p) <==> json::text_field(v, "type"@) != Some(
            "summary"@,
        ) && (json::field(v, "message"@) matches Some(msg) && (json::field(msg, "content"@)
            matches Some(JsonV::Array(blocks)) && exists|i: int|
            0 <= i < blocks.len() && json::text_field(#[trigger] blocks[i], "type"@) == Some(
                "tool_use"@,
            ) && (json::field(blocks[i], "input"@) matches Some(input) && names_path(input, p)))),
{
    if json::text_field(v, "type"@) != Some("summary"@) {
        lemma_not_summary(v);
    }
    if let Some(msg) = json::field(v, "message"@) {
        if let Some(JsonV::Array(blocks)) = json::field(msg, "content"@) {
            lemma_paths_in_blocks(blocks);
            assert(paths_in_blocks(blocks).contains(p) <==> exists|i: int|
                0 <= i < blocks.len() && json::text_field(#[trigger] blocks[i], "type"@) == Some(
                    "tool_use"@,
                ) && (json::field(blocks[i], "input"@) matches Some(input) && names_path(input, p)));
        }
    }
}

/// The time of a turn is that of its record.
pub proof fn turns_keep_their_times(v: JsonV, index: usize, t: Seq<char>)
    requires
        json::text_field(v, "timestamp"@) == Some(t),
    ensures
        turn_of(v, index).ts_ms == ingest::rfc3339_ms(t),
{
}

/// The context of a session comes from the first record that has it: where it ran, the commit
/// that it stood on, when it started, and the version of the agent.
pub proof fn sessions_keep_their_context(records: Seq<JsonV>, id: Seq<char>, path: Seq<char>, i: int)
    requires
        0 <= i < records.len(),
    ensures
        json::text_field(records[i], "cwd"@) is Some && (forall|j: int|
            0 <= j < i ==> json::text_field(#[trigger] records[j], "cwd"@) is None) ==> session_of(
            records,
            id,
            path,
        ).repo_root == json::text_field(records[i], "cwd"@),
        json::text_field(records[i], "version"@) is Some && (forall|j: int|
            0 <= j < i ==> json::text_field(#[trigger] records[j], "version"@) is None)
            ==> session_of(records, id, path).connector_version == json::text_field(
            records[i],
            "version"@,
        ),
        record_ms(records[i]) is Some && (forall|j: int|
            0 <= j < i ==> record_ms(#[trigger] records[j]) is None) ==> session_of(
            records,
            id,
            path,
        ).started_at_ms == record_ms(records[i]),
        record_commit(records[i]) is Some && (forall|j: int|
            0 <= j < i ==> record_commit(#[trigger] records[j]) is None) ==> session_of(
            records,
            id,
            path,
        ).commit == record_commit(records[i]),
        session_of(records, id, path).native_session_id == id,
        session_of(records, id, path).agent == AgentKind::ClaudeCode,
        session_of(records, id, path).source_path == Some(path),
{
    let says_cwd = |v: JsonV| json::text_field(v, "cwd"@);
    let says_version = |v: JsonV| json::text_field(v, "version"@);
    let says_ms = |v: JsonV| record_ms(v);
    let says_commit = |v: JsonV| record_commit(v);
    if says_cwd(records[i]) is Some && forall|j: int|
        0 <= j < i ==> json::text_field(#[trigger] records[j], "cwd"@) is None {
        ingest::the_first_that_says_counts(records, says_cwd, i);
    }
    if says_version(records[i]) is Some && forall|j: int|
        0 <= j < i ==> json::text_field(#[trigger] records[j], "version"@) is None {
        ingest::the_first_that_says_counts(records, says_version, i);
    }
    if says_ms(records[i]) is Some && forall|j: int|
        0 <= j < i ==> record_ms(#[trigger] records[j]) is None {
        ingest::the_first_that_says_counts(records, says_ms, i);
    }
    if says_commit(records[i]) is Some && forall|j: int|
        0 <= j < i ==> record_commit(#[trigger] records[j]) is None {
        ingest::the_first_that_says_counts(records, says_commit, i);
    }
}

/// A record names its commit under `gitCommit`, or under `commit` where that is missing.
pub proof fn commits_are_read(v: JsonV, t: Seq<char>)
    requires
        ingest::is_commit(t),
    ensures
        json::field(v, "gitCommit"@) == Some(JsonV::Text(t)) ==> record_commit(v) == Some(t),
        json::field(v, "gitCommit"@) is None && json::field(v, "commit"@) == Some(JsonV::Text(t))
            ==> record_commit(v) == Some(t),
{
}

} // verus!
