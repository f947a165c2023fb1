//! Anchoring a session to the commit that was the head when it took place.

use vstd::prelude::*;

use crate::git;
use crate::git::History;
use crate::model;
use crate::model::{CanonicalSession, Turn, TurnV};
use crate::text;

verus! {

/// Whether a path, as a list of components, is another one or lies below it.
pub open spec fn lies_below(path: Seq<Seq<char>>, root: Seq<Seq<char>>) -> bool {
    root.len() <= path.len() && path.take(root.len() as int) == root
}

/// Whether a working directory belongs to the git tree of a root: it is the root, or lies below
/// it with no repository of its own in between. `has_git` says of each number of leading
/// components of the directory whether a repository starts there.
pub open spec fn in_same_tree(dir: Seq<Seq<char>>, root: Seq<Seq<char>>, has_git: Seq<bool>) -> bool {
    lies_below(dir, root) && forall|d: int|
        root.len() < d <= dir.len() ==> !(#[trigger] has_git[d])
}

/// Whether a working directory belongs to the git tree of a root. Both paths are canonical,
/// component by component.
pub fn same_git_tree(dir: &Vec<String>, root: &Vec<String>, has_git: &Vec<bool>) -> (r: bool)
    requires
        has_git@.len() == dir@.len() + 1,
    ensures
        r == in_same_tree(text::string_views(dir@), text::string_views(root@), has_git@),
{
    let n: usize = root.len();
    let ghost (ds, rs) = (text::string_views(dir@), text::string_views(root@));
    if dir.len() < n {
        return false;
    }
    for i in 0..n
        invariant
            n == root@.len() <= dir@.len(),
            ds == text::string_views(dir@),
            rs == text::string_views(root@),
            forall|j: int| 0 <= j < i ==> #[trigger] ds[j] == rs[j],
    {
        assert(ds[i as int] == dir@[i as int]@ && rs[i as int] == root@[i as int]@);
        if !text::same_str(dir[i].as_str(), root[i].as_str()) {
            proof {
                assert(ds.take(n as int)[i as int] != rs[i as int]);
            }
            return false;
        }
    }
    assert(ds.take(n as int) =~= rs);
    let mut d: usize = dir.len();
    while d > n
        invariant
            n <= d <= dir@.len(),
            has_git@.len() == dir@.len() + 1,
            forall|j: int| d < j <= dir@.len() ==> !(#[trigger] has_git@[j]),
            lies_below(ds, rs),
            ds == text::string_views(dir@),
            rs == text::string_views(root@),
            n == root@.len(),
        decreases d,
    {
        if has_git[d] {
            assert(has_git@[d as int]);
            return false;
        }
        d -= 1;
    }
    true
}

/// When the first turn with a time took place.
pub open spec fn first_time(turns: Seq<TurnV>) -> Option<i64>
    decreases turns.len(),
{
    if turns.len() == 0 {
        None
    } else if turns[0].ts_ms is Some {
        turns[0].ts_ms
    } else {
        first_time(turns.drop_first())
    }
}

/// When a session took place: when it started, or else its first turn with a time.
pub open spec fn session_time(s: model::CanonicalSessionV) -> Option<i64> {
    match s.started_at_ms {
        Some(t) => Some(t),
        None => first_time(s.turns),
    }
}

fn find_time(turns: &Vec<Turn>) -> (r: Option<i64>)
    ensures
        r == first_time(model::turn_views(turns@)),
{
    let ghost views = model::turn_views(turns@);
    let n: usize = turns.len();
    assert(views.skip(0) =~= views);
    for i in 0..n
        invariant
            n == turns@.len(),
            views == model::turn_views(turns@),
            first_time(views) == first_time(views.skip(i as int)),
    {
        assert(views.skip(i as int)[0] == turns@[i as int]@);
        match turns[i].ts_ms {
            Some(t) => {
                return Some(t);
            },
            None => {},
        }
        assert(views.skip(i as int).drop_first() =~= views.skip(i + 1));
    }
    assert(views.skip(n as int).len() == 0);
    None
}

/// The commit of a session: its own where it has one; else, where it took place in the tree of
/// a history, the one that was the head at the time, or the head where no time is known.
pub open spec fn anchored(
    s: model::CanonicalSessionV,
    head: Option<Seq<char>>,
    commits: Seq<git::CommitV>,
    in_tree: bool,
) -> Option<Seq<char>> {
    match s.commit {
        Some(c) => Some(c),
        None => if !in_tree {
            None
        } else {
            match session_time(s) {
                Some(t) => match git::contemporary(commits, t) {
                    Some(i) => Some(commits[i].oid),
                    None => None,
                },
                None => head,
            }
        },
    }
}

/// The commit of a session, given the history of the tree that it took place in.
pub fn anchor_commit(s: &CanonicalSession, h: &History, in_tree: bool) -> (r: Option<String>)
    ensures
        model::opt(r) == anchored(
            s@,
            model::opt(h.head),
            git::commit_views(h.commits@),
            in_tree,
        ),
{
    match &s.commit {
        Some(c) => {
            return Some(c.clone());
        },
        None => {},
    }
    if !in_tree {
        return None;
    }
    let time: Option<i64> = match s.started_at_ms {
        Some(t) => Some(t),
        None => find_time(&s.turns),
    };
    match time {
        Some(t) => match h.commit_at(t) {
            Some(c) => Some(c.oid.clone()),
            None => {
                assert(git::commit_views(h.commits@).len() == 0);
                None
            },
        },
        None => model::copy_opt(&h.head),
    }
}

// ---------------------------------------------------------------------------
// Laws
// ---------------------------------------------------------------------------

/// A commit that a session brings with it always stands.
pub proof fn native_commit_wins(
    s: model::CanonicalSessionV,
    head: Option<Seq<char>>,
    commits: Seq<git::CommitV>,
    in_tree: bool,
)
    requires
        s.commit is Some,
    ensures
        anchored(s, head, commits, in_tree) == s.commit,
{
}

/// A session from elsewhere is never anchored to a commit of the tree.
pub proof fn no_false_provenance(
    s: model::CanonicalSessionV,
    head: Option<Seq<char>>,
    commits: Seq<git::CommitV>,
)
    requires
        s.commit is None,
    ensures
        anchored(s, head, commits, false) is None,
{
}

/// A repository inside a tree keeps the directories below it out of that tree.
pub proof fn nested_repository_is_apart(
    dir: Seq<Seq<char>>,
    root: Seq<Seq<char>>,
    has_git: Seq<bool>,
    d: int,
)
    requires
        root.len() < d <= dir.len(),
        has_git.len() == dir.len() + 1,
        has_git[d],
    ensures
        !in_same_tree(dir, root, has_git),
{
}

/// A session that does not say when it started took place when its first turn with a time did.
pub proof fn the_first_time_counts(turns: Seq<TurnV>, i: int)
    requires
        0 <= i < turns.len(),
        turns[i].ts_ms is Some,
        forall|j: int| 0 <= j < i ==> (#[trigger] turns[j]).ts_ms is None,
    ensures
        first_time(turns) == turns[i].ts_ms,
    decreases i,
{
    if i > 0 {
        let rest = turns.drop_first();
        assert(rest[i - 1] == turns[i]);
        assert forall|j: int| 0 <= j < i - 1 implies (#[trigger] rest[j]).ts_ms is None by {
            assert(rest[j] == turns[j + 1]);
        }
        the_first_time_counts(rest, i - 1);
    }
}

/// A session in a tree is anchored to the commit that was the head when it started, or when its
/// first turn with a time took place; to the head of today only where no time is known.
pub proof fn sessions_are_anchored_in_time(
    s: model::CanonicalSessionV,
    head: Option<Seq<char>>,
    commits: Seq<git::CommitV>,
    t: i64,
)
    requires
        s.commit is None,
        git::newest_first(commits),
        commits.len() > 0,
    ensures
        s.started_at_ms == Some(t) || (s.started_at_ms is None && first_time(s.turns) == Some(t))
            ==> exists|i: int|
            0 <= i < commits.len() && anchored(s, head, commits, true) == Some(
                (#[trigger] commits[i]).oid,
            ) && (forall|j: int| 0 <= j < i ==> (#[trigger] commits[j]).time_ms > t) && (
            commits[i].time_ms <= t || i == commits.len() - 1),
        s.started_at_ms is None && first_time(s.turns) is None ==> anchored(s, head, commits, true)
            == head,
{
    if session_time(s) == Some(t) {
        git::commit_at_is_contemporary(commits, t);
        let i = git::contemporary(commits, t)->0;
        lemma_first_not_younger(commits, t);
        assert(anchored(s, head, commits, true) == Some(commits[i].oid));
    }
}

proof fn lemma_first_not_younger(commits: Seq<git::CommitV>, t: i64)
    requires
        commits.len() > 0,
    ensures
        git::contemporary(commits, t) matches Some(i) && 0 <= i < commits.len() && (forall|j: int|
            0 <= j < i ==> (#[trigger] commits[j]).time_ms > t) && (commits[i].time_ms <= t || i
            == commits.len() - 1),
    decreases commits.len(),
{
    if !(commits[0].time_ms <= t || commits.len() == 1) {
        let rest = commits.drop_first();
        lemma_first_not_younger(rest, t);
        let i = git::contemporary(commits, t)->0;
        assert(commits[i] == rest[i - 1]);
        assert forall|j: int| 0 <= j < i implies (#[trigger] commits[j]).time_ms > t by {
            if j > 0 {
                assert(commits[j] == rest[j - 1]);
            }
        }
    }
}

/// A directory below a root belongs to its tree where no repository starts on the way down; one
/// that is not below it never does.
pub proof fn directories_below_belong(
    root: Seq<Seq<char>>,
    rest: Seq<Seq<char>>,
    other: Seq<Seq<char>>,
    has_git: Seq<bool>,
)
    ensures
        (forall|d: int| root.len() < d <= root.len() + rest.len() ==> !(#[trigger] has_git[d]))
            ==> in_same_tree(root + rest, root, has_git),
        in_same_tree(other, root, has_git) ==> exists|x: Seq<Seq<char>>| other == #[trigger] (root
            + x),
{
    assert((root + rest).take(root.len() as int) =~= root);
    if in_same_tree(other, root, has_git) {
        assert(other =~= root + other.skip(root.len() as int));
    }
}

} // verus!
