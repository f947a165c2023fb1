//! Connectors: one for each agent's transcript format.
//!
//! A connector lowers a transcript to a [`CanonicalSession`]. It is lenient: a line that is
//! not JSON is skipped, a record that is not recognised becomes an `Unknown` turn, and no
//! transcript is ever rejected.

use vstd::prelude::*;

use crate::json;
use crate::json::{Json, JsonV};
use crate::ingest::claude_code::ClaudeCode;
use crate::ingest::codex::Codex;
use crate::model::{CanonicalSession, CanonicalSessionV, MessageKind, TurnV};
use crate::paths;
use crate::redact;
use crate::text;

pub mod claude_code;
pub mod codex;

verus! {

// ---------------------------------------------------------------------------
// Records
// ---------------------------------------------------------------------------

/// The record on a line; nothing on a blank line or one that is not JSON.
pub open spec fn record_of(line: Seq<char>) -> Option<JsonV> {
    let t = text::trimmed(line);
    if t.len() == 0 {
        None
    } else {
        json::json_parsed(t)
    }
}

/// The records on lines, in order.
pub open spec fn records_on(lines: Seq<Seq<char>>) -> Seq<JsonV>
    decreases lines.len(),
{
    if lines.len() == 0 {
        Seq::empty()
    } else {
        match record_of(lines.last()) {
            Some(v) => records_on(lines.drop_last()).push(v),
            None => records_on(lines.drop_last()),
        }
    }
}

/// The records of a transcript.
pub open spec fn records(s: Seq<char>) -> Seq<JsonV> {
    records_on(text::lines(s))
}

/// Reads the record on a line.
pub fn read_record(line: &[char]) -> (r: Option<Json>)
    ensures
        match r {
            Some(v) => record_of(line@) == Some(v@),
            None => record_of(line@) is None,
        },
{
    let t = text::trim(line);
    if t.len() == 0 {
        return None;
    }
    json::parse(text::string_of(&t).as_str())
}

/// Reads the records of a transcript.
pub fn read_records(s: &str) -> (r: Vec<Json>)
    ensures
        json::items_view(r@) == records(s@),
{
    let lines = text::split_lines(&text::chars_of(s));
    let mut out: Vec<Json> = Vec::new();
    let n: usize = lines.len();
    let ghost ls = text::views(lines@);
    for i in 0..n
        invariant
            n == lines@.len(),
            ls == text::views(lines@),
            json::items_view(out@) == records_on(ls.take(i as int)),
    {
        assert(ls.take(i + 1).drop_last() =~= ls.take(i as int));
        assert(ls.take(i + 1).last() == lines@[i as int]@);
        match read_record(&lines[i]) {
            Some(v) => {
                let ghost before = out@;
                out.push(v);
                assert(out@.drop_last() =~= before);
            },
            None => {},
        }
    }
    assert(ls.take(n as int) =~= ls);
    out
}

/// What the first record says that says anything.
pub open spec fn first_of<T>(records: Seq<JsonV>, says: spec_fn(JsonV) -> Option<T>) -> Option<T>
    decreases records.len(),
{
    if records.len() == 0 {
        None
    } else {
        match first_of(records.drop_last(), says) {
            Some(x) => Some(x),
            None => says(records.last()),
        }
    }
}

// ---------------------------------------------------------------------------
// Fields
// ---------------------------------------------------------------------------

/// A hexadecimal digit in either case.
pub open spec fn is_hex(c: char) -> bool {
    '0' <= c <= '9' || 'a' <= c <= 'f' || 'A' <= c <= 'F'
}

/// Hexadecimal digits only.
pub open spec fn all_hex(s: Seq<char>) -> bool {
    forall|i: int| 0 <= i < s.len() ==> is_hex(#[trigger] s[i])
}

/// Something that can be a commit: at least seven hexadecimal digits, and nothing else.
pub open spec fn is_commit(s: Seq<char>) -> bool {
    s.len() >= 7 && all_hex(s)
}

/// A text where it can be a commit.
pub open spec fn commit_only(s: Option<Seq<char>>) -> Option<Seq<char>> {
    match s {
        Some(t) => if is_commit(t) {
            Some(t)
        } else {
            None
        },
        None => None,
    }
}

/// Tests for a hexadecimal digit.
pub fn test_hex(c: char) -> (r: bool)
    ensures
        r == is_hex(c),
{
    ('0' <= c && c <= '9') || ('a' <= c && c <= 'f') || ('A' <= c && c <= 'F')
}

/// Tests whether a text can be a commit.
pub fn test_commit(s: &str) -> (r: bool)
    ensures
        r == is_commit(s@),
{
    let cs = text::chars_of(s);
    let n: usize = cs.len();
    if n < 7 {
        return false;
    }
    for i in 0..n
        invariant
            n == cs@.len(),
            cs@ == s@,
            forall|j: int| 0 <= j < i ==> is_hex(#[trigger] cs@[j]),
    {
        if !test_hex(cs[i]) {
            assert(!is_hex(s@[i as int]));
            return false;
        }
    }
    true
}

/// The epoch milliseconds of a timestamp, where `chrono` reads it as RFC 3339.
pub uninterp spec fn rfc3339_ms(s: Seq<char>) -> Option<i64>;

/// `DateTime::parse_from_rfc3339` and, where it succeeds, `DateTime::timestamp_millis`: a
/// function of the text.
#[verifier::external_body]
pub(crate) fn parse_iso_ms(s: &str) -> (r: Option<i64>)
    ensures
        r == rfc3339_ms(s@),
{
    chrono::DateTime::parse_from_rfc3339(s).ok().map(|dt| dt.timestamp_millis())
}

/// The milliseconds of an optional timestamp.
pub open spec fn ms_of(s: Option<Seq<char>>) -> Option<i64> {
    match s {
        Some(t) => rfc3339_ms(t),
        None => None,
    }
}

/// A path list with one more path, unless the path is missing or already listed.
pub open spec fn with_path(paths: Seq<Seq<char>>, p: Option<Seq<char>>) -> Seq<Seq<char>> {
    match p {
        Some(t) => if paths.contains(t) {
            paths
        } else {
            paths.push(t)
        },
        None => paths,
    }
}

/// Lists a path once.
pub fn add_path(paths: &mut Vec<String>, p: Option<&String>)
    ensures
        text::string_views(final(paths)@) == with_path(
            text::string_views(old(paths)@),
            json::str_opt(p),
        ),
{
    match p {
        Some(t) => {
            let ghost ps = text::string_views(paths@);
            let n: usize = paths.len();
            for i in 0..n
                invariant
                    n == paths@.len(),
                    ps == text::string_views(paths@),
                    paths@ == old(paths)@,
                    p == Some(t),
                    forall|j: int| 0 <= j < i ==> #[trigger] ps[j] != t@,
            {
                if text::same_str(paths[i].as_str(), t.as_str()) {
                    assert(ps[i as int] == t@);
                    return;
                }
            }
            paths.push(t.clone());
            assert(text::string_views(paths@) =~= ps.push(t@));
        },
        None => {},
    }
}

/// What is known already, or else a copy of what is said.
pub fn keep_first(known: Option<String>, says: Option<&String>) -> (r: Option<String>)
    ensures
        crate::model::opt(r) == (match crate::model::opt(known) {
            Some(x) => Some(x),
            None => json::str_opt(says),
        }),
{
    match known {
        Some(x) => Some(x),
        None => match says {
            Some(t) => Some(t.clone()),
            None => None,
        },
    }
}

/// A text with one more block: blocks stand on lines of their own.
pub open spec fn with_block(s: Seq<char>, t: Seq<char>) -> Seq<char> {
    if s.len() == 0 {
        t
    } else {
        s.push('\n') + t
    }
}

/// Adds a block to a text.
pub fn add_block(out: &mut Vec<char>, t: &str)
    ensures
        final(out)@ == with_block(old(out)@, t@),
{
    if out.len() != 0 {
        out.push('\n');
    }
    text::append_str(out, t);
    assert(old(out)@.len() == 0 ==> out@ =~= t@);
}

// ---------------------------------------------------------------------------
// Connectors
// ---------------------------------------------------------------------------

/// The connectors of this library.
#[derive(Clone, Copy, PartialEq, Eq, Structural)]
pub enum Connector {
    ClaudeCode,
    Codex,
}

/// Whether no text of a turn holds a secret.
pub open spec fn secret_free(turns: Seq<TurnV>) -> bool {
    forall|i: int| 0 <= i < turns.len() ==> !redact::has_secret((#[trigger] turns[i]).text)
}

impl Connector {
    /// The stable id of a connector.
    pub open spec fn name(self) -> Seq<char> {
        match self {
            Connector::ClaudeCode => "claude_code"@,
            Connector::Codex => "codex"@,
        }
    }

    /// The stable id of the connector.
    pub fn id(self) -> (r: &'static str)
        ensures
            r@ == self.name(),
    {
        match self {
            Connector::ClaudeCode => "claude_code",
            Connector::Codex => "codex",
        }
    }
}

/// The session that a connector makes of a transcript.
pub open spec fn session_read(
    c: Connector,
    transcript: Seq<char>,
    stem: Option<Seq<char>>,
    path: Seq<char>,
) -> CanonicalSessionV {
    let name = match stem {
        Some(s) => s,
        None => "unknown"@,
    };
    match c {
        Connector::ClaudeCode => claude_code::session_of(records(transcript), name, path),
        Connector::Codex => codex::session_of(records(transcript), codex::native_id(name), path),
    }
}

/// Whether a connector reads a file of this name.
pub open spec fn reads_file(c: Connector, file_name: Seq<char>) -> bool {
    paths::extension_of(file_name) == Some("jsonl"@) && match c {
        Connector::ClaudeCode => true,
        Connector::Codex => text::has_prefix(file_name, "rollout-"@),
    }
}

impl Connector {
    /// How deep below its root the connector's transcripts lie.
    pub fn max_depth(self) -> (r: usize)
        ensures
            r == (match self {
                Connector::ClaudeCode => 3usize,
                Connector::Codex => 5usize,
            }),
    {
        match self {
            Connector::ClaudeCode => 3,
            Connector::Codex => 5,
        }
    }

    /// Whether a file of this name is a transcript of the connector.
    pub fn is_transcript(self, file_name: &str) -> (r: bool)
        ensures
            r == reads_file(self, file_name@),
    {
        let jsonl = match paths::extension(file_name) {
            Some(e) => text::same_str(e.as_str(), "jsonl"),
            None => false,
        };
        jsonl && match self {
            Connector::ClaudeCode => true,
            Connector::Codex => text::starts_with(&text::chars_of(file_name), "rollout-"),
        }
    }

    /// Reads a transcript: its text, the stem of its file name, and its path.
    pub fn read_session(self, transcript: &str, stem: Option<&str>, source_path: &str) -> (r:
        CanonicalSession)
        ensures
            r@ == session_read(
                self,
                transcript@,
                match stem {
                    Some(s) => Some(s@),
                    None => None,
                },
                source_path@,
            ),
            secret_free(r@.turns),
    {
        match self {
            Connector::ClaudeCode => ClaudeCode.read_session(transcript, stem, source_path),
            Connector::Codex => Codex.read_session(transcript, stem, source_path),
        }
    }
}

/// The connectors, in the order in which they are tried.
pub fn registry() -> (r: Vec<Connector>)
    ensures
        r@ == seq![Connector::ClaudeCode, Connector::Codex],
{
    vec![Connector::ClaudeCode, Connector::Codex]
}

/// The connector with an id.
pub fn by_id(id: &str) -> (r: Option<Connector>)
    ensures
        match r {
            Some(c) => c.name() == id@,
            None => forall|c: Connector| #[trigger] c.name() != id@,
        },
{
    if text::same_str(id, Connector::ClaudeCode.id()) {
        return Some(Connector::ClaudeCode);
    }
    if text::same_str(id, Connector::Codex.id()) {
        return Some(Connector::Codex);
    }
    None
}

// ---------------------------------------------------------------------------
// Laws
// ---------------------------------------------------------------------------

/// The text of a record for a connector, before redaction.
pub open spec fn raw_text(c: Connector, v: JsonV) -> Seq<char> {
    match c {
        Connector::ClaudeCode => claude_code::record_text(v),
        Connector::Codex => codex::record_text(v),
    }
}

/// Reading loses nothing and never fails: each record of a transcript becomes one turn, in
/// order, which keeps the record as it was read, and whose text is redacted.
pub proof fn reading_is_lossless(
    c: Connector,
    transcript: Seq<char>,
    stem: Option<Seq<char>>,
    path: Seq<char>,
    i: int,
)
    requires
        0 <= i < records(transcript).len() <= usize::MAX,
    ensures
        ({
            let turns = session_read(c, transcript, stem, path).turns;
            let v = records(transcript)[i];
            &&& turns.len() == records(transcript).len()
            &&& turns[i].index == i
            &&& turns[i].raw == v
            &&& turns[i].text == redact::redacted(raw_text(c, v))
        }),
{
}

/// A record of no known type is kept as an unknown turn.
pub proof fn unknown_records_are_kept(v: JsonV, index: usize)
    requires
        !seq!["user"@, "assistant"@, "system"@, "summary"@].contains(claude_code::record_type(v)),
        codex::record_type(v) != Some("message"@),
        codex::record_type(v) != Some("function_call"@),
    ensures
        claude_code::turn_of(v, index).kind == MessageKind::Unknown,
        claude_code::turn_of(v, index).raw == v,
        codex::turn_of(v, index).kind == MessageKind::Unknown,
        codex::turn_of(v, index).raw == v,
{
    let known = seq!["user"@, "assistant"@, "system"@, "summary"@];
    assert(known[0] == "user"@ && known[1] == "assistant"@ && known[2] == "system"@ && known[3]
        == "summary"@);
    assert(known.contains(known[0]) && known.contains(known[1]) && known.contains(known[2])
        && known.contains(known[3]));
}

/// Nothing but a commit id is ever taken for a commit.
pub proof fn commits_are_commit_ids(s: Option<Seq<char>>)
    ensures
        commit_only(s) matches Some(t) ==> is_commit(t) && s == Some(t),
{
}

/// The records are the lines that are JSON, in their order: none is left out and none is added.
pub proof fn every_json_line_is_a_record(s: Seq<char>)
    ensures
        records(s) == text::lines(s).filter_map(
            |l: Seq<char>|
                if text::trimmed(l).len() == 0 {
                    None
                } else {
                    json::json_parsed(text::trimmed(l))
                },
        ),
{
    lemma_records_on(text::lines(s));
}

proof fn lemma_records_on(lines: Seq<Seq<char>>)
    ensures
        records_on(lines) == lines.filter_map(
            |l: Seq<char>|
                if text::trimmed(l).len() == 0 {
                    None
                } else {
                    json::json_parsed(text::trimmed(l))
                },
        ),
    decreases lines.len(),
{
    let f = |l: Seq<char>|
        if text::trimmed(l).len() == 0 {
            None
        } else {
            json::json_parsed(text::trimmed(l))
        };
    if lines.len() != 0 {
        lemma_records_on(lines.drop_last());
        assert(f(lines.last()) == record_of(lines.last()));
    }
    assert(records_on(lines) =~= lines.filter_map(f));
}

/// What a session says of itself is what the first record says that says anything.
pub proof fn the_first_that_says_counts<T>(
    records: Seq<JsonV>,
    says: spec_fn(JsonV) -> Option<T>,
    i: int,
)
    requires
        0 <= i < records.len(),
        says(records[i]) is Some,
        forall|j: int| 0 <= j < i ==> says(#[trigger] records[j]) is None,
    ensures
        first_of(records, says) == says(records[i]),
    decreases records.len(),
{
    let init = records.drop_last();
    if i < init.len() {
        assert(init[i] == records[i]);
        assert forall|j: int| 0 <= j < i implies says(#[trigger] init[j]) is None by {
            assert(init[j] == records[j]);
        }
        the_first_that_says_counts(init, says, i);
    } else {
        assert forall|j: int| 0 <= j < init.len() implies says(#[trigger] init[j]) is None by {
            assert(init[j] == records[j]);
        }
        what_none_says_is_missing(init, says);
    }
}

/// Where no record says anything, nothing is made up.
pub proof fn what_none_says_is_missing<T>(records: Seq<JsonV>, says: spec_fn(JsonV) -> Option<T>)
    requires
        forall|j: int| 0 <= j < records.len() ==> says(#[trigger] records[j]) is None,
    ensures
        first_of(records, says) is None,
    decreases records.len(),
{
    if records.len() != 0 {
        let init = records.drop_last();
        assert forall|j: int| 0 <= j < init.len() implies says(#[trigger] init[j]) is None by {
            assert(init[j] == records[j]);
        }
        what_none_says_is_missing(init, says);
        assert(says(records[records.len() - 1]) is None);
    }
}

/// A text of at least seven hexadecimal digits, in either case, is kept as a commit; no other
/// text is.
pub proof fn hexadecimal_texts_are_commits(t: Seq<char>)
    ensures
        commit_only(Some(t)) == (if t.len() >= 7 && forall|i: int|
            0 <= i < t.len() ==> '0' <= #[trigger] t[i] <= '9' || 'a' <= t[i] <= 'f' || 'A' <= t[i]
                <= 'F' {
            Some(t)
        } else {
            None
        }),
        commit_only(None) is None,
{
    if forall|i: int|
        0 <= i < t.len() ==> '0' <= #[trigger] t[i] <= '9' || 'a' <= t[i] <= 'f' || 'A' <= t[i]
            <= 'F' {
        assert(all_hex(t));
    } else {
        let i = choose|i: int|
            0 <= i < t.len() && !('0' <= #[trigger] t[i] <= '9' || 'a' <= t[i] <= 'f' || 'A' <= t[i]
                <= 'F');
        assert(!is_hex(t[i]));
    }
}

/// Each block of a text occurs in it, and those before it stay at its front.
pub proof fn lemma_with_block(s: Seq<char>, t: Seq<char>)
    ensures
        text::has_suffix(with_block(s, t), t),
        text::has_prefix(with_block(s, t), s),
        s.len() != 0 ==> with_block(s, t) == s + seq!['\n'] + t,
        s.len() == 0 ==> with_block(s, t) == t,
{
    let r = with_block(s, t);
    assert(r.subrange(r.len() - t.len(), r.len() as int) =~= t);
    assert(r.subrange(0, s.len() as int) =~= s);
    if s.len() != 0 {
        assert(r =~= s + seq!['\n'] + t);
    }
}

/// What occurs in the front of a text occurs in it.
pub proof fn lemma_occurs_in_front(s: Seq<char>, front: Seq<char>, t: Seq<char>)
    requires
        text::has_prefix(s, front),
        text::occurs(front, t),
    ensures
        text::occurs(s, t),
{
    let i = choose|i: int| #[trigger] text::occurs_at(front, t, i);
    assert(s.subrange(0, front.len() as int) == front);
    assert(s.subrange(i, i + t.len()) =~= front.subrange(i, i + t.len()));
    assert(text::occurs_at(s, t, i));
}

/// A path is listed once: a list with one more path has it, keeps what it had, and nothing else.
pub proof fn lemma_with_path(paths: Seq<Seq<char>>, p: Option<Seq<char>>)
    ensures
        p matches Some(t) ==> with_path(paths, p).contains(t),
        forall|x: Seq<char>| #[trigger]
            with_path(paths, p).contains(x) <==> paths.contains(x) || p == Some(x),
        paths.no_duplicates() ==> with_path(paths, p).no_duplicates(),
{
    if let Some(t) = p {
        if !paths.contains(t) {
            let all = paths.push(t);
            assert(all[paths.len() as int] == t);
            assert forall|x: Seq<char>| #[trigger] all.contains(x) <==> paths.contains(x) || x
                == t by {
                if paths.contains(x) {
                    let i = choose|i: int| 0 <= i < paths.len() && paths[i] == x;
                    assert(all[i] == x);
                }
                if all.contains(x) && x != t {
                    let i = choose|i: int| 0 <= i < all.len() && all[i] == x;
                    assert(paths[i] == x);
                }
            }
            assert forall|x: Seq<char>| #[trigger] with_path(paths, p).contains(x) <==> paths.contains(
                x,
            ) || p == Some(x) by {
                assert(all.contains(x) <==> paths.contains(x) || x == t);
            }
        }
    }
}

/// A transcript is a file that ends in `.jsonl`; for `codex` its name starts with `rollout-` too.
pub proof fn transcripts_are_known_by_name(stem: Seq<char>)
    requires
        stem.len() != 0,
        forall|i: int| 0 <= i < stem.len() ==> #[trigger] stem[i] != '.',
    ensures
        reads_file(Connector::ClaudeCode, stem + ".jsonl"@),
        reads_file(Connector::Codex, "rollout-"@ + stem + ".jsonl"@),
        !reads_file(Connector::ClaudeCode, stem + ".json"@),
        !reads_file(Connector::ClaudeCode, stem),
        !text::has_prefix(stem + ".jsonl"@, "rollout-"@) ==> !reads_file(
            Connector::Codex,
            stem + ".jsonl"@,
        ),
{
    reveal_strlit("jsonl");
    reveal_strlit(".jsonl");
    reveal_strlit(".json");
    reveal_strlit("rollout-");
    crate::paths::extension_is_behind_the_dot(stem, "jsonl"@);
    crate::paths::extension_is_behind_the_dot("rollout-"@ + stem, "jsonl"@);
    reveal_strlit("json");
    crate::paths::extension_is_behind_the_dot(stem, "json"@);
    assert(stem.push('.') + "jsonl"@ =~= stem + ".jsonl"@);
    assert(stem.push('.') + "json"@ =~= stem + ".json"@);
    assert(("rollout-"@ + stem).push('.') + "jsonl"@ =~= "rollout-"@ + stem + ".jsonl"@);
    let long = "rollout-"@ + stem + ".jsonl"@;
    assert(long.subrange(0, "rollout-"@.len() as int) =~= "rollout-"@);
    assert("json"@ != "jsonl"@) by {
        assert("json"@.len() != "jsonl"@.len());
    }
    crate::paths::no_dot_no_extension(stem);
}

/// A session is known by the stem of its file, and tells which file it was read from and which
/// agent wrote it.
pub proof fn sessions_are_known_by_their_file(
    transcript: Seq<char>,
    stem: Seq<char>,
    path: Seq<char>,
)
    ensures
        session_read(Connector::ClaudeCode, transcript, Some(stem), path)
            == claude_code::session_of(records(transcript), stem, path),
        session_read(Connector::ClaudeCode, transcript, Some(stem), path).native_session_id == stem,
        session_read(Connector::ClaudeCode, transcript, None, path).native_session_id
            == "unknown"@,
        session_read(Connector::Codex, transcript, Some(stem), path) == codex::session_of(
            records(transcript),
            codex::native_id(stem),
            path,
        ),
        session_read(Connector::Codex, transcript, Some(stem), path).native_session_id
            == codex::native_id(stem),
        session_read(Connector::ClaudeCode, transcript, Some(stem), path).agent
            == crate::model::AgentKind::ClaudeCode,
        session_read(Connector::Codex, transcript, Some(stem), path).agent
            == crate::model::AgentKind::Codex,
        session_read(Connector::ClaudeCode, transcript, Some(stem), path).source_path == Some(path),
        session_read(Connector::Codex, transcript, Some(stem), path).source_path == Some(path),
{
}

/// What the connectors are called.
pub proof fn connectors_are_called_these()
    ensures
        Connector::ClaudeCode.name() == "claude_code"@,
        Connector::Codex.name() == "codex"@,
{
}

} // verus!
