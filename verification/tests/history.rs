use lore::anchor::{anchor_commit, same_git_tree};
use lore::git::{mine, timeline, CommitMeta, History, RawCommit};
use lore::json::Json;
use lore::model::{AgentKind, CanonicalSession, MessageKind, Turn};

fn cm(oid: &str, time_ms: i64) -> CommitMeta {
    CommitMeta {
        oid: oid.into(),
        short: oid.chars().take(8).collect(),
        summary: String::new(),
        author: String::new(),
        time_ms,
        changed: Vec::new(),
    }
}

#[test]
fn commit_at_picks_newest_at_or_before() {
    let h = History {
        head: Some("c".into()),
        workdir: None,
        commits: vec![cm("c", 3000), cm("b", 2000), cm("a", 1000)],
    };
    assert_eq!(h.commit_at(2500).unwrap().oid, "b", "contemporaneous = newest ≤ ts");
    assert_eq!(h.commit_at(3000).unwrap().oid, "c", "exact time matches");
    assert_eq!(h.commit_at(5000).unwrap().oid, "c", "after HEAD → HEAD");
    assert_eq!(h.commit_at(500).unwrap().oid, "a", "before all → oldest known");
    assert!(!h.is_empty());
    assert_eq!(h.head_short().as_deref(), Some("c"));
}

fn raw(oid: &str, message: &str, seconds: i64, changed: &[&str]) -> RawCommit {
    RawCommit {
        oid: oid.to_string(),
        message: Some(message.to_string()),
        author: Some("A".to_string()),
        seconds: Some(seconds),
        changed: Some(changed.iter().map(|s| s.to_string()).collect()),
    }
}

#[test]
fn mining_sorts_newest_first() {
    let all = vec![
        raw("aaaaaaaaaa", "one\n\nbody", 1, &["b.rs", "a.rs"]),
        raw("bbbbbbbbbb", "two", 3, &[]),
        raw("cccccccccc", "three", 2, &["src\\x.rs"]),
    ];
    let h = mine(Some("bbbbbbbbbb".to_string()), Some("/w".to_string()), &all, 10);
    let oids: Vec<&str> = h.commits.iter().map(|c| c.short.as_str()).collect();
    assert_eq!(oids, vec!["bbbbbbbb", "cccccccc", "aaaaaaaa"]);
    assert_eq!(h.commits[2].summary, "one");
    assert_eq!(h.commits[0].time_ms, 3000);
    assert_eq!(h.commits[2].changed, vec!["a.rs".to_string(), "b.rs".to_string()]);
    assert_eq!(h.commits[1].changed, vec!["src/x.rs".to_string()]);
    assert_eq!(h.head_short().as_deref(), Some("bbbbbbbb"));
    let t = timeline(None, None, &all, 2);
    assert_eq!(t.commits.len(), 2);
    assert!(t.commits.iter().all(|c| c.changed.is_empty()));
    assert!(mine(None, None, &vec![], 10).is_empty());
}

fn comps(p: &str) -> Vec<String> {
    p.split('/').filter(|c| !c.is_empty()).map(|c| c.to_string()).collect()
}

fn below(dir: &str, root: &str, repos: &[&str]) -> bool {
    let d = comps(dir);
    let git: Vec<bool> = (0..d.len() + 1)
        .map(|n| repos.iter().any(|r| comps(r)[..] == d[..n]))
        .collect();
    same_git_tree(&d, &comps(root), &git)
}

#[test]
fn same_git_tree_exact_root() {
    assert!(below("/tmp/root", "/tmp/root", &["/tmp/root"]));
}

#[test]
fn same_git_tree_plain_subdir() {
    assert!(below("/tmp/root/crate/src", "/tmp/root", &["/tmp/root"]));
}

#[test]
fn same_git_tree_rejects_nested_git_dir() {
    assert!(!below("/tmp/root/vendor/inner", "/tmp/root", &["/tmp/root", "/tmp/root/vendor/inner"]));
}

#[test]
fn same_git_tree_rejects_nested_git_file() {
    assert!(!below("/tmp/root/worktrees/feat/src", "/tmp/root", &["/tmp/root/worktrees/feat"]));
}

#[test]
fn same_git_tree_rejects_outside_path() {
    assert!(!below("/tmp/other", "/tmp/root", &[]));
    assert!(!below("/tmp/rootling", "/tmp/root", &[]));
    assert!(!below("/tmp", "/tmp/root", &[]));
}

fn session(commit: Option<&str>, started: Option<i64>, first: Option<i64>) -> CanonicalSession {
    CanonicalSession {
        native_session_id: "s".into(),
        agent: AgentKind::ClaudeCode,
        repo_root: Some("/r".into()),
        commit: commit.map(|c| c.to_string()),
        started_at_ms: started,
        source_path: None,
        connector_version: None,
        turns: vec![
            Turn {
                index: 0,
                kind: MessageKind::User,
                text: "a".into(),
                ts_ms: None,
                touched_files: vec![],
                raw: Json::Null,
            },
            Turn {
                index: 1,
                kind: MessageKind::User,
                text: "b".into(),
                ts_ms: first,
                touched_files: vec![],
                raw: Json::Null,
            },
        ],
    }
}

#[test]
fn sessions_are_anchored_to_their_time() {
    let h = History {
        head: Some("c".into()),
        workdir: None,
        commits: vec![cm("c", 3000), cm("b", 2000), cm("a", 1000)],
    };
    assert_eq!(anchor_commit(&session(None, Some(2100), None), &h, true).as_deref(), Some("b"));
    assert_eq!(anchor_commit(&session(None, None, Some(1100)), &h, true).as_deref(), Some("a"));
    assert_eq!(anchor_commit(&session(None, None, None), &h, true).as_deref(), Some("c"));
    assert_eq!(anchor_commit(&session(None, Some(2100), None), &h, false), None);
    assert_eq!(anchor_commit(&session(Some("x"), Some(2100), None), &h, true).as_deref(), Some("x"));
}
