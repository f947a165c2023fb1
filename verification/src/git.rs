//! Git history: the commit side of provenance.
//!
//! A history lists commits, newest first. It answers which commit was the head when a chat
//! took place, and stamps repositories with the commit that they were indexed against.

use vstd::prelude::*;

use crate::model;
use crate::paths;
use crate::rank;
use crate::sorted;
use crate::text;

verus! {

/// A commit as it is read from a repository.
pub struct RawCommit {
    /// Full hexadecimal object id.
    pub oid: String,
    /// The message, where it could be read.
    pub message: Option<String>,
    /// The author's name, where it could be read.
    pub author: Option<String>,
    /// The commit time in seconds, where it could be read.
    pub seconds: Option<i64>,
    /// The paths that changed against the first parent, where they could be compared.
    pub changed: Option<Vec<String>>,
}

/// A commit, flattened to what the graph cites.
pub struct CommitMeta {
    /// Full hexadecimal object id.
    pub oid: String,
    /// Its first eight digits.
    pub short: String,
    /// The first line of the message.
    pub summary: String,
    /// The author's name; empty where it could not be read.
    pub author: String,
    /// The commit time in epoch milliseconds.
    pub time_ms: i64,
    /// The paths that changed, with forward slashes, in ascending order.
    pub changed: Vec<String>,
}

/// What a commit says.
#[verifier::ext_equal]
pub struct CommitV {
    pub oid: Seq<char>,
    pub short: Seq<char>,
    pub summary: Seq<char>,
    pub author: Seq<char>,
    pub time_ms: i64,
    pub changed: Seq<Seq<char>>,
}

impl View for CommitMeta {
    type V = CommitV;

    open spec fn view(&self) -> CommitV {
        CommitV {
            oid: self.oid@,
            short: self.short@,
            summary: self.summary@,
            author: self.author@,
            time_ms: self.time_ms,
            changed: text::string_views(self.changed@),
        }
    }
}

impl Clone for CommitMeta {
    fn clone(&self) -> (r: CommitMeta)
        ensures
            r@ == self@,
    {
        CommitMeta {
            oid: self.oid.clone(),
            short: self.short.clone(),
            summary: self.summary.clone(),
            author: self.author.clone(),
            time_ms: self.time_ms,
            changed: model::copy_strings(&self.changed),
        }
    }
}

/// The views of a list of commits.
pub open spec fn commit_views(v: Seq<CommitMeta>) -> Seq<CommitV> {
    v.map_values(|c: CommitMeta| c@)
}

/// The first line of a message, trimmed; empty where there is none.
pub open spec fn first_line(message: Option<Seq<char>>) -> Seq<char> {
    match message {
        Some(m) => if text::lines(m).len() == 0 {
            Seq::empty()
        } else {
            text::trimmed(text::lines(m)[0])
        },
        None => Seq::empty(),
    }
}

/// An optional text; empty where it is missing.
pub open spec fn or_empty(s: Option<Seq<char>>) -> Seq<char> {
    match s {
        Some(x) => x,
        None => Seq::empty(),
    }
}

/// Paths with forward slashes.
pub open spec fn forward_all(paths: Seq<Seq<char>>) -> Seq<Seq<char>> {
    paths.map_values(|p: Seq<char>| paths::forward(p))
}

/// Whether a flattened commit stands for a commit as it was read: its changed paths, where
/// they are wanted, with forward slashes, in ascending order, each once.
pub open spec fn flattens(c: CommitV, raw: RawCommit, with_diffs: bool) -> bool {
    &&& c.oid == raw.oid@
    &&& c.short == text::first_chars(raw.oid@, 8)
    &&& c.summary == first_line(model::opt(raw.message))
    &&& c.author == or_empty(model::opt(raw.author))
    &&& c.time_ms == (match raw.seconds {
        Some(s) => s * 1000,
        None => 0,
    })
    &&& match raw.changed {
        Some(paths) => if with_diffs {
            sorted::sorted_once(c.changed, forward_all(text::string_views(paths@)))
        } else {
            c.changed.len() == 0
        },
        None => c.changed.len() == 0,
    }
}

/// Whether the time of a commit fits in milliseconds.
pub open spec fn time_fits(raw: RawCommit) -> bool {
    raw.seconds matches Some(s) ==> i64::MIN <= s * 1000 <= i64::MAX
}

/// Newest first.
pub open spec fn newest_first(commits: Seq<CommitV>) -> bool {
    forall|i: int, j: int|
        0 <= i < j < commits.len() ==> (#[trigger] commits[i]).time_ms >= (
        #[trigger] commits[j]).time_ms
}

/// A repository's history, newest commit first.
pub struct History {
    /// The head's full object id, where there is one.
    pub head: Option<String>,
    /// The root of the working tree.
    pub workdir: Option<String>,
    pub commits: Vec<CommitMeta>,
}

/// The position of the commit that was the head at a time: the first that is not younger, or
/// else the last.
pub open spec fn contemporary(commits: Seq<CommitV>, ts_ms: i64) -> Option<int>
    decreases commits.len(),
{
    if commits.len() == 0 {
        None
    } else if commits[0].time_ms <= ts_ms || commits.len() == 1 {
        Some(0)
    } else {
        match contemporary(commits.drop_first(), ts_ms) {
            Some(i) => Some(i + 1),
            None => None,
        }
    }
}

impl History {
    /// Whether there is no commit.
    pub fn is_empty(&self) -> (r: bool)
        ensures
            r == (self.commits@.len() == 0),
    {
        self.commits.len() == 0
    }

    /// The commit that was the head at a time; the oldest one where all are younger.
    pub fn commit_at(&self, ts_ms: i64) -> (r: Option<&CommitMeta>)
        ensures
            match r {
                Some(c) => contemporary(commit_views(self.commits@), ts_ms) matches Some(i) && 0 <= i
                    < self.commits@.len() && c@ == self.commits@[i]@,
                None => self.commits@.len() == 0,
            },
    {
        let n: usize = self.commits.len();
        if n == 0 {
            return None;
        }
        let ghost all = commit_views(self.commits@);
        assert(all.skip(0) =~= all);
        let mut i: usize = 0;
        while i + 1 < n && self.commits[i].time_ms > ts_ms
            invariant
                n == self.commits@.len(),
                all == commit_views(self.commits@),
                i < n,
                contemporary(all, ts_ms) == (match contemporary(all.skip(i as int), ts_ms) {
                    Some(k) => Some(k + i),
                    None => None,
                }),
            decreases n - i,
        {
            assert(all.skip(i as int)[0] == self.commits@[i as int]@);
            assert(all.skip(i as int).drop_first() =~= all.skip(i + 1));
            i += 1;
        }
        assert(all.skip(i as int)[0] == self.commits@[i as int]@);
        Some(&self.commits[i])
    }

    /// The first eight digits of the head.
    pub fn head_short(&self) -> (r: Option<String>)
        ensures
            match r {
                Some(h) => self.head matches Some(x) && h@ == text::first_chars(x@, 8),
                None => self.head is None,
            },
    {
        match &self.head {
            Some(h) => Some(text::string_of(&text::take(&text::chars_of(h.as_str()), 8))),
            None => None,
        }
    }
}

fn first_line_of(message: &Option<String>) -> (r: String)
    ensures
        r@ == first_line(model::opt(*message)),
{
    match message {
        Some(m) => {
            let lines = text::split_lines(&text::chars_of(m.as_str()));
            assert(text::views(lines@).len() == lines@.len());
            if lines.len() == 0 {
                String::new()
            } else {
                assert(text::views(lines@)[0] == lines@[0]@);
                text::string_of(&text::trim(&lines[0]))
            }
        },
        None => String::new(),
    }
}

fn flatten(raw: &RawCommit, with_diffs: bool) -> (r: CommitMeta)
    requires
        time_fits(*raw),
    ensures
        flattens(r@, *raw, with_diffs),
{
    let changed: Vec<String> = match (&raw.changed, with_diffs) {
        (Some(paths), true) => {
            let mut all: Vec<String> = Vec::new();
            let n: usize = paths.len();
            for i in 0..n
                invariant
                    n == paths@.len(),
                    all@.len() == i,
                    forall|j: int| 0 <= j < i ==> (#[trigger] all@[j])@ == paths::forward(paths@[j]@),
            {
                all.push(paths::forward_slashes(paths[i].as_str()));
            }
            assert(text::string_views(all@) =~= forward_all(text::string_views(paths@)));
            sorted::sort_once(&all)
        },
        _ => Vec::new(),
    };
    CommitMeta {
        oid: raw.oid.clone(),
        short: text::string_of(&text::take(&text::chars_of(raw.oid.as_str()), 8)),
        summary: first_line_of(&raw.message),
        author: match &raw.author {
            Some(a) => a.clone(),
            None => String::new(),
        },
        time_ms: match raw.seconds {
            Some(s) => s * 1000,
            None => 0,
        },
        changed,
    }
}

/// Whether a history lists the first `cap` commits of a walk, flattened, by descending time;
/// commits of the same time keep the order of the walk.
pub open spec fn lists_walk(
    commits: Seq<CommitV>,
    raw: Seq<RawCommit>,
    cap: nat,
    with_diffs: bool,
) -> bool {
    let taken = text::first_n(raw, cap as int);
    let ms = Seq::new(
        taken.len(),
        |i: int|
            (match taken[i].seconds {
                Some(s) => s * 1000,
                None => 0,
            }) as i64,
    );
    let order = rank::ranking(ms);
    &&& rank::is_ranking(ms, order)
    &&& commits.len() == taken.len()
    &&& forall|k: int|
        0 <= k < commits.len() ==> flattens(
            #[trigger] commits[k],
            taken[order[k] as int],
            with_diffs,
        )
}

fn run(
    head: Option<String>,
    workdir: Option<String>,
    raw: &Vec<RawCommit>,
    cap: usize,
    with_diffs: bool,
) -> (r: History)
    requires
        forall|i: int| 0 <= i < raw@.len() ==> time_fits(#[trigger] raw@[i]),
    ensures
        r.head == head,
        r.workdir == workdir,
        lists_walk(commit_views(r.commits@), raw@, cap as nat, with_diffs),
{
    let n: usize = if cap < raw.len() {
        cap
    } else {
        raw.len()
    };
    let ghost taken = text::first_n(raw@, cap as int);
    assert(taken =~= raw@.take(n as int));
    let mut flat: Vec<CommitMeta> = Vec::new();
    let mut keys: Vec<i64> = Vec::new();
    for i in 0..n
        invariant
            n <= raw@.len(),
            forall|j: int| 0 <= j < raw@.len() ==> time_fits(#[trigger] raw@[j]),
            flat@.len() == i,
            keys@.len() == i,
            forall|j: int| 0 <= j < i ==> flattens((#[trigger] flat@[j])@, raw@[j], with_diffs),
            forall|j: int| 0 <= j < i ==> #[trigger] keys@[j] == flat@[j].time_ms,
    {
        let c = flatten(&raw[i], with_diffs);
        keys.push(c.time_ms);
        flat.push(c);
    }
    let order = rank::rank(&keys);
    let ghost ms = Seq::new(
        taken.len(),
        |i: int|
            (match taken[i].seconds {
                Some(s) => s * 1000,
                None => 0,
            }) as i64,
    );
    assert(keys@ =~= ms) by {
        assert forall|i: int| 0 <= i < n implies keys@[i] == ms[i] by {
            assert(flattens(flat@[i]@, raw@[i], with_diffs));
            assert(taken[i] == raw@[i]);
        }
    }
    let mut commits: Vec<CommitMeta> = Vec::new();
    for i in 0..n
        invariant
            n == order@.len() == flat@.len() == keys@.len(),
            rank::is_ranking(keys@, order@),
            commits@.len() == i,
            forall|j: int| 0 <= j < i ==> (#[trigger] commits@[j])@ == flat@[order@[j] as int]@,
    {
        assert(order@.contains(order@[i as int]));
        commits.push(flat[order[i]].clone());
    }
    assert forall|k: int| 0 <= k < commits@.len() implies flattens(
        #[trigger] commit_views(commits@)[k],
        taken[order@[k] as int],
        with_diffs,
    ) by {
        assert(order@.contains(order@[k]));
        assert(commit_views(commits@)[k] == commits@[k]@);
        assert(taken[order@[k] as int] == raw@[order@[k] as int]);
        assert(flattens(flat@[order@[k] as int]@, raw@[order@[k] as int], with_diffs));
    }
    History { head, workdir, commits }
}

/// The history of a walk over at most `cap` commits, with the paths that each one changed.
pub fn mine(head: Option<String>, workdir: Option<String>, raw: &Vec<RawCommit>, cap: usize) -> (r:
    History)
    requires
        forall|i: int| 0 <= i < raw@.len() ==> time_fits(#[trigger] raw@[i]),
    ensures
        r.head == head,
        r.workdir == workdir,
        lists_walk(commit_views(r.commits@), raw@, cap as nat, true),
{
    run(head, workdir, raw, cap, true)
}

/// The history of a walk over at most `cap` commits, without changed paths.
pub fn timeline(head: Option<String>, workdir: Option<String>, raw: &Vec<RawCommit>, cap: usize) -> (r:
    History)
    requires
        forall|i: int| 0 <= i < raw@.len() ==> time_fits(#[trigger] raw@[i]),
    ensures
        r.head == head,
        r.workdir == workdir,
        lists_walk(commit_views(r.commits@), raw@, cap as nat, false),
{
    run(head, workdir, raw, cap, false)
}

// ---------------------------------------------------------------------------
// Laws
// ---------------------------------------------------------------------------

/// What is mined is sorted, newest first.
pub proof fn mined_history_is_sorted(
    commits: Seq<CommitV>,
    raw: Seq<RawCommit>,
    cap: nat,
    with_diffs: bool,
)
    requires
        lists_walk(commits, raw, cap, with_diffs),
        forall|i: int| 0 <= i < raw.len() ==> time_fits(#[trigger] raw[i]),
    ensures
        newest_first(commits),
{
    let taken = text::first_n(raw, cap as int);
    let ms = Seq::new(
        taken.len(),
        |i: int|
            (match taken[i].seconds {
                Some(s) => s * 1000,
                None => 0,
            }) as i64,
    );
    let order = rank::ranking(ms);
    assert forall|i: int, j: int| 0 <= i < j < commits.len() implies (#[trigger] commits[i]).time_ms
        >= (#[trigger] commits[j]).time_ms by {
        assert(order.contains(order[i]) && order.contains(order[j]));
        assert(rank::before(ms, order[i], order[j]));
        assert(flattens(commits[i], taken[order[i] as int], with_diffs));
        assert(flattens(commits[j], taken[order[j] as int], with_diffs));
        assert(taken[order[i] as int] == raw[order[i] as int]);
        assert(taken[order[j] as int] == raw[order[j] as int]);
        assert(time_fits(raw[order[i] as int]) && time_fits(raw[order[j] as int]));
    }
}

proof fn lemma_contemporary(commits: Seq<CommitV>, ts_ms: i64)
    requires
        commits.len() > 0,
    ensures
        contemporary(commits, ts_ms) matches Some(i) && 0 <= i < commits.len() && (commits[i].time_ms
            <= ts_ms || i == commits.len() - 1) && forall|j: int|
            0 <= j < i ==> (#[trigger] commits[j]).time_ms > ts_ms,
    decreases commits.len(),
{
    if !(commits[0].time_ms <= ts_ms || commits.len() == 1) {
        let t = commits.drop_first();
        lemma_contemporary(t, ts_ms);
        let i = contemporary(commits, ts_ms)->0;
        assert(commits[i] == t[i - 1]);
        assert forall|j: int| 0 <= j < i implies (#[trigger] commits[j]).time_ms > ts_ms by {
            if j > 0 {
                assert(commits[j] == t[j - 1]);
            }
        }
    }
}

/// In a history that is sorted newest first, the commit at a time is the newest one that is
/// not younger; where all are younger it is the oldest one.
pub proof fn commit_at_is_contemporary(commits: Seq<CommitV>, ts_ms: i64)
    requires
        newest_first(commits),
        commits.len() > 0,
    ensures
        contemporary(commits, ts_ms) matches Some(i) && 0 <= i < commits.len() && (if exists|j: int|
            0 <= j < commits.len() && (#[trigger] commits[j]).time_ms <= ts_ms {
            commits[i].time_ms <= ts_ms && forall|j: int|
                0 <= j < commits.len() && (#[trigger] commits[j]).time_ms <= ts_ms
                    ==> commits[j].time_ms <= commits[i].time_ms
        } else {
            i == commits.len() - 1 && forall|j: int|
                0 <= j < commits.len() ==> (#[trigger] commits[j]).time_ms >= commits[i].time_ms
        }),
{
    lemma_contemporary(commits, ts_ms);
}

/// The summary of a commit is the first line of its message.
pub proof fn summaries_are_first_lines(line: Seq<char>, rest: Seq<char>)
    requires
        forall|i: int| 0 <= i < line.len() ==> #[trigger] line[i] != '\n',
    ensures
        line.len() == 0 || line.last() != '\r' ==> first_line(Some(line.push('\n') + rest))
            == text::trimmed(line),
        line.len() != 0 ==> first_line(Some(line)) == text::trimmed(line),
        first_line(Some(Seq::empty())).len() == 0,
        first_line(None).len() == 0,
{
    let m = line.push('\n') + rest;
    let at = line.len() as int;
    assert forall|j: int| 0 <= j < at implies !text::CharClass::Is('\n').has(#[trigger] m[j]) by {
        assert(m[j] == line[j]);
    }
    assert(m[at] == '\n');
    text::lemma_first_index_is(m, text::CharClass::Is('\n'), at);
    assert(m.take(at) =~= line);
    assert(text::lines(m)[0] == text::without_return(line));
    if line.len() != 0 {
        text::lemma_first_index_is(line, text::CharClass::Is('\n'), at);
        assert(text::lines(line) == seq![line]);
    }
}

/// A flattened commit keeps all that was read: the id and its first eight digits, the first
/// line of the message, the author, the time in milliseconds, and the changed paths with
/// forward slashes, where they are wanted.
pub proof fn commits_are_flattened_whole(c: CommitV, raw: RawCommit, with_diffs: bool, p: Seq<char>)
    requires
        flattens(c, raw, with_diffs),
    ensures
        c.oid == raw.oid@,
        raw.oid@.len() >= 8 ==> c.short == raw.oid@.subrange(0, 8),
        raw.message is None ==> c.summary.len() == 0,
        raw.message matches Some(m) ==> c.summary == first_line(Some(m@)),
        raw.author matches Some(a) ==> c.author == a@,
        raw.author is None ==> c.author.len() == 0,
        raw.seconds matches Some(s) ==> c.time_ms == 1000 * s,
        raw.seconds is None ==> c.time_ms == 0,
        raw.changed matches Some(paths) ==> (with_diffs ==> (c.changed.contains(p) <==> exists|i: int|
            0 <= i < paths@.len() && #[trigger] paths::forward(text::string_views(paths@)[i]) == p)),
        raw.changed is None || !with_diffs ==> c.changed.len() == 0,
        sorted::texts_ascend(c.changed),
{
    if raw.oid@.len() >= 8 {
        assert(raw.oid@.take(8) =~= raw.oid@.subrange(0, 8));
    }
    if let Some(paths) = raw.changed {
        if with_diffs {
            let vs = text::string_views(paths@);
            let all = forward_all(vs);
            assert(c.changed.contains(p) <==> all.contains(p));
            if all.contains(p) {
                let i = choose|i: int| 0 <= i < all.len() && all[i] == p;
                assert(paths::forward(vs[i]) == p);
            }
            if exists|i: int| 0 <= i < paths@.len() && #[trigger] paths::forward(vs[i]) == p {
                let i = choose|i: int|
                    0 <= i < paths@.len() && #[trigger] paths::forward(vs[i]) == p;
                assert(all[i] == p);
            }
        }
    }
}

/// No commit of a walk is left out up to the cap, and none is listed that was not walked over.
pub proof fn walks_are_listed_whole(
    commits: Seq<CommitV>,
    raw: Seq<RawCommit>,
    cap: nat,
    with_diffs: bool,
    i: int,
)
    requires
        lists_walk(commits, raw, cap, with_diffs),
        raw.len() <= usize::MAX,
        0 <= i < raw.len(),
        i < cap,
    ensures
        commits.len() == (if cap < raw.len() {
            cap
        } else {
            raw.len()
        }),
        exists|k: int| 0 <= k < commits.len() && flattens(#[trigger] commits[k], raw[i], with_diffs),
{
    let taken = text::first_n(raw, cap as int);
    let ms = Seq::new(
        taken.len(),
        |i: int|
            (match taken[i].seconds {
                Some(s) => s * 1000,
                None => 0,
            }) as i64,
    );
    let order = rank::ranking(ms);
    assert(taken[i] == raw[i]);
    assert(order.contains(i as usize));
    let k = choose|k: int| 0 <= k < order.len() && order[k] == i as usize;
    assert(flattens(commits[k], taken[order[k] as int], with_diffs));
}

/// What a commit says: all that it holds.
pub proof fn commit_meta_views_say_all(x: CommitMeta)
    ensures
        x@.oid == x.oid@,
        x@.short == x.short@,
        x@.summary == x.summary@,
        x@.author == x.author@,
        x@.time_ms == x.time_ms,
        x@.changed == text::string_views(x.changed@),
{
}

/// Viewing a list keeps all its items, in their order.
pub proof fn commit_views_keep_all(v: Seq<CommitMeta>, i: int)
    requires
        0 <= i < v.len(),
    ensures
        commit_views(v).len() == v.len(),
        commit_views(v)[i] == v[i]@,
{
}

} // verus!
