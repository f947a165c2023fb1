//! Lists of texts in ascending order, without repetition.

use vstd::prelude::*;

use crate::text;

verus! {

/// Strictly ascending texts.
pub open spec fn texts_ascend(s: Seq<Seq<char>>) -> bool {
    forall|i: int, j: int| 0 <= i < j < s.len() ==> text::text_lt(#[trigger] s[i], #[trigger] s[j])
}

/// Whether `sorted` lists the texts of `all`, each once, in ascending order.
pub open spec fn sorted_once(sorted: Seq<Seq<char>>, all: Seq<Seq<char>>) -> bool {
    &&& texts_ascend(sorted)
    &&& forall|t: Seq<char>| #[trigger] sorted.contains(t) <==> all.contains(t)
}

/// The texts at positions.
pub open spec fn texts_at(all: Seq<Vec<char>>, at: Seq<usize>) -> Seq<Seq<char>> {
    at.map_values(|i: usize| all[i as int]@)
}

/// Positions inside a list.
pub open spec fn inside(all: Seq<Vec<char>>, at: Seq<usize>) -> bool {
    forall|i: int| 0 <= i < at.len() ==> (#[trigger] at[i]) < all.len()
}

/// Whether no later position between `lo` and `hi` has the same text as a listed one.
pub open spec fn lists_last(all: Seq<Vec<char>>, at: Seq<usize>, lo: int, hi: int) -> bool {
    forall|k: int, i: int|
        0 <= k < at.len() && lo <= i < hi && (#[trigger] all[i])@ == all[(
        #[trigger] at[k]) as int]@ ==> i <= at[k]
}

/// Merges two ascending lists of positions; of two equal texts that of the second list is kept.
fn merge(all: &Vec<Vec<char>>, a: &Vec<usize>, b: &Vec<usize>) -> (r: Vec<usize>)
    requires
        inside(all@, a@),
        inside(all@, b@),
        texts_ascend(texts_at(all@, a@)),
        texts_ascend(texts_at(all@, b@)),
    ensures
        inside(all@, r@),
        texts_ascend(texts_at(all@, r@)),
        forall|t: Seq<char>| #[trigger]
            texts_at(all@, r@).contains(t) <==> texts_at(all@, a@).contains(t) || texts_at(
                all@,
                b@,
            ).contains(t),
        forall|k: int|
            0 <= k < r@.len() ==> b@.contains(#[trigger] r@[k]) || (a@.contains(r@[k]) && !texts_at(
                all@,
                b@,
            ).contains(all@[r@[k] as int]@)),
{
    let ghost ta = texts_at(all@, a@);
    let ghost tb = texts_at(all@, b@);
    let mut out: Vec<usize> = Vec::new();
    let mut i: usize = 0;
    let mut j: usize = 0;
    while i < a.len() || j < b.len()
        invariant
            inside(all@, a@),
            inside(all@, b@),
            inside(all@, out@),
            ta == texts_at(all@, a@),
            tb == texts_at(all@, b@),
            texts_ascend(ta),
            texts_ascend(tb),
            i <= a@.len(),
            j <= b@.len(),
            texts_ascend(texts_at(all@, out@)),
            forall|k: int, m: int|
                0 <= k < out@.len() && i <= m < ta.len() ==> text::text_lt(
                    #[trigger] texts_at(all@, out@)[k],
                    #[trigger] ta[m],
                ),
            forall|k: int, m: int|
                0 <= k < out@.len() && j <= m < tb.len() ==> text::text_lt(
                    #[trigger] texts_at(all@, out@)[k],
                    #[trigger] tb[m],
                ),
            forall|t: Seq<char>| #[trigger]
                texts_at(all@, out@).contains(t) ==> ta.contains(t) || tb.contains(t),
            forall|k: int|
                0 <= k < out@.len() ==> b@.contains(#[trigger] out@[k]) || (a@.contains(out@[k])
                    && !tb.contains(all@[out@[k] as int]@)),
            forall|m: int| 0 <= m < j ==> text::text_lt(#[trigger] tb[m], ta[i as int]) || i
                == a@.len(),
            forall|m: int| 0 <= m < i ==> texts_at(all@, out@).contains(#[trigger] ta[m]),
            forall|m: int| 0 <= m < j ==> texts_at(all@, out@).contains(#[trigger] tb[m]),
        decreases a@.len() + b@.len() - i - j,
    {
        let take_a = if i == a.len() {
            false
        } else if j == b.len() {
            true
        } else {
            !text::less(&all[b[j]], &all[a[i]])
        };
        let take_b = if j == b.len() {
            false
        } else if i == a.len() {
            true
        } else {
            !text::less(&all[a[i]], &all[b[j]])
        };
        let ghost was = texts_at(all@, out@);
        let next: usize = if take_b {
            b[j]
        } else {
            a[i]
        };
        let ghost t = all@[next as int]@;
        out.push(next);
        proof {
            let now = texts_at(all@, out@);
            assert(now =~= was.push(t));
            if i < a@.len() && j < b@.len() {
                text::lemma_text_lt_total(ta[i as int], tb[j as int]);
                text::lemma_text_lt_irreflexive(t);
                if text::text_lt(ta[i as int], tb[j as int]) && text::text_lt(
                    tb[j as int],
                    ta[i as int],
                ) {
                    text::lemma_text_lt_transitive(ta[i as int], tb[j as int], ta[i as int]);
                    text::lemma_text_lt_irreflexive(ta[i as int]);
                }
            }
            assert(take_a ==> ta[i as int] == t);
            assert(take_b ==> tb[j as int] == t);
            assert forall|x: Seq<char>| #[trigger] now.contains(x) <==> was.contains(x) || x == t by {
                if was.contains(x) {
                    let k = choose|k: int| 0 <= k < was.len() && was[k] == x;
                    assert(now[k] == x);
                }
                assert(now[was.len() as int] == t);
                if now.contains(x) && x != t {
                    let k = choose|k: int| 0 <= k < now.len() && now[k] == x;
                    assert(was[k] == x);
                }
            }
            if take_b {
                assert(tb.contains(t));
                assert(b@.contains(b@[j as int]));
            } else {
                assert(ta.contains(t));
                assert(a@.contains(a@[i as int]));
                if tb.contains(t) {
                    let m = choose|m: int| 0 <= m < tb.len() && tb[m] == t;
                    text::lemma_text_lt_irreflexive(t);
                    if m > j {
                        assert(text::text_lt(tb[j as int], tb[m]));
                        text::lemma_text_lt_transitive(t, tb[j as int], tb[m]);
                    }
                }
            }
            let ni = if take_a {
                i + 1
            } else {
                i as int
            };
            let nj = if take_b {
                j + 1
            } else {
                j as int
            };
            assert forall|k: int, m: int| 0 <= k < now.len() && ni <= m < ta.len() implies text::text_lt(
                #[trigger] now[k],
                #[trigger] ta[m],
            ) by {
                if k < was.len() {
                    assert(now[k] == was[k]);
                } else if take_a {
                    assert(text::text_lt(ta[i as int], ta[m]));
                } else {
                    assert(text::text_lt(t, ta[i as int]));
                    if m > i {
                        assert(text::text_lt(ta[i as int], ta[m]));
                        text::lemma_text_lt_transitive(t, ta[i as int], ta[m]);
                    }
                }
            }
            assert forall|k: int, m: int| 0 <= k < now.len() && nj <= m < tb.len() implies text::text_lt(
                #[trigger] now[k],
                #[trigger] tb[m],
            ) by {
                if k < was.len() {
                    assert(now[k] == was[k]);
                } else if take_b {
                    assert(text::text_lt(tb[j as int], tb[m]));
                } else {
                    assert(text::text_lt(t, tb[j as int]));
                    if m > j {
                        assert(text::text_lt(tb[j as int], tb[m]));
                        text::lemma_text_lt_transitive(t, tb[j as int], tb[m]);
                    }
                }
            }
        }
        proof {
            let ni = if take_a {
                i + 1
            } else {
                i as int
            };
            let nj = if take_b {
                j + 1
            } else {
                j as int
            };
            assert forall|m: int| 0 <= m < nj implies text::text_lt(#[trigger] tb[m], ta[ni]) || ni
                == a@.len() by {
                if ni < a@.len() {
                    if take_a {
                        assert(text::text_lt(ta[i as int], ta[ni]));
                        if m < j {
                            text::lemma_text_lt_transitive(tb[m], ta[i as int], ta[ni]);
                        }
                    }
                }
            }
        }
        if take_a {
            i += 1;
        }
        if take_b {
            j += 1;
        }
    }
    proof {
        let now = texts_at(all@, out@);
        assert forall|t: Seq<char>| #[trigger] now.contains(t) <==> ta.contains(t) || tb.contains(
            t,
        ) by {
            if ta.contains(t) {
                let m = choose|m: int| 0 <= m < ta.len() && ta[m] == t;
                assert(now.contains(ta[m]));
            }
            if tb.contains(t) {
                let m = choose|m: int| 0 <= m < tb.len() && tb[m] == t;
                assert(now.contains(tb[m]));
            }
        }
    }
    out
}

/// Lists the positions from `lo` to `hi` in the order of their texts, each text once.
fn sort_range(all: &Vec<Vec<char>>, lo: usize, hi: usize) -> (r: Vec<usize>)
    requires
        lo <= hi <= all@.len(),
    ensures
        inside(all@, r@),
        texts_ascend(texts_at(all@, r@)),
        forall|t: Seq<char>| #[trigger]
            texts_at(all@, r@).contains(t) <==> exists|i: int|
                lo <= i < hi && (#[trigger] all@[i])@ == t,
        forall|k: int| 0 <= k < r@.len() ==> lo <= (#[trigger] r@[k]) < hi,
        lists_last(all@, r@, lo as int, hi as int),
    decreases hi - lo,
{
    if lo == hi {
        let r: Vec<usize> = Vec::new();
        assert(texts_at(all@, r@) =~= Seq::empty());
        return r;
    }
    if hi - lo == 1 {
        let mut r: Vec<usize> = Vec::new();
        r.push(lo);
        assert(texts_at(all@, r@) =~= seq![all@[lo as int]@]);
        assert(texts_at(all@, r@)[0] == all@[lo as int]@);
        return r;
    }
    let mid: usize = lo + (hi - lo) / 2;
    let a = sort_range(all, lo, mid);
    let b = sort_range(all, mid, hi);
    let r = merge(all, &a, &b);
    assert forall|t: Seq<char>| #[trigger] texts_at(all@, r@).contains(t) <==> exists|i: int|
        lo <= i < hi && (#[trigger] all@[i])@ == t by {
        assert(texts_at(all@, a@).contains(t) || texts_at(all@, b@).contains(t) <==> texts_at(
            all@,
            r@,
        ).contains(t));
    }
    assert forall|k: int| 0 <= k < r@.len() implies lo <= (#[trigger] r@[k]) < hi by {
        if b@.contains(r@[k]) {
            let m = choose|m: int| 0 <= m < b@.len() && b@[m] == r@[k];
        } else {
            let m = choose|m: int| 0 <= m < a@.len() && a@[m] == r@[k];
        }
    }
    assert forall|k: int, i: int|
        0 <= k < r@.len() && lo <= i < hi && (#[trigger] all@[i])@ == all@[(
        #[trigger] r@[k]) as int]@ implies i <= r@[k] by {
        let t = all@[i]@;
        if b@.contains(r@[k]) {
            let m = choose|m: int| 0 <= m < b@.len() && b@[m] == r@[k];
            assert(b@[m] == r@[k]);
        } else {
            let m = choose|m: int| 0 <= m < a@.len() && a@[m] == r@[k];
            assert(a@[m] == r@[k]);
            if i >= mid {
                assert(texts_at(all@, b@).contains(t));
            }
        }
    }
    r
}

/// Lists the positions of the texts in ascending order, each text once, at its last position.
pub fn sort_last(all: &Vec<Vec<char>>) -> (r: Vec<usize>)
    ensures
        inside(all@, r@),
        texts_ascend(texts_at(all@, r@)),
        forall|t: Seq<char>| #[trigger]
            texts_at(all@, r@).contains(t) <==> exists|i: int|
                0 <= i < all@.len() && (#[trigger] all@[i])@ == t,
        lists_last(all@, r@, 0, all@.len() as int),
{
    sort_range(all, 0, all.len())
}

/// Where a text stands in an ascending list of positions.
pub fn find_text(all: &Vec<Vec<char>>, order: &Vec<usize>, c: &[char]) -> (r: Option<usize>)
    requires
        inside(all@, order@),
        texts_ascend(texts_at(all@, order@)),
    ensures
        match r {
            Some(k) => k < order@.len() && all@[order@[k as int] as int]@ == c@,
            None => !texts_at(all@, order@).contains(c@),
        },
{
    let ghost ts = texts_at(all@, order@);
    let mut lo: usize = 0;
    let mut hi: usize = order.len();
    while lo < hi
        invariant
            lo <= hi <= order@.len(),
            inside(all@, order@),
            ts == texts_at(all@, order@),
            texts_ascend(ts),
            forall|j: int| 0 <= j < lo ==> text::text_lt(#[trigger] ts[j], c@),
            forall|j: int| hi <= j < ts.len() ==> text::text_lt(c@, #[trigger] ts[j]),
        decreases hi - lo,
    {
        let mid: usize = lo + (hi - lo) / 2;
        let at: usize = order[mid];
        assert(ts[mid as int] == all@[at as int]@);
        if text::less(&all[at], c) {
            assert forall|j: int| 0 <= j < mid + 1 implies text::text_lt(#[trigger] ts[j], c@) by {
                if j < mid {
                    assert(text::text_lt(ts[j], ts[mid as int]));
                    text::lemma_text_lt_transitive(ts[j], ts[mid as int], c@);
                }
            }
            lo = mid + 1;
        } else if text::less(c, &all[at]) {
            assert forall|j: int| mid <= j < ts.len() implies text::text_lt(c@, #[trigger] ts[j]) by {
                if mid < j {
                    assert(text::text_lt(ts[mid as int], ts[j]));
                    text::lemma_text_lt_transitive(c@, ts[mid as int], ts[j]);
                }
            }
            hi = mid;
        } else {
            proof {
                text::lemma_text_lt_total(ts[mid as int], c@);
            }
            return Some(mid);
        }
    }
    proof {
        if ts.contains(c@) {
            let j = choose|j: int| 0 <= j < ts.len() && ts[j] == c@;
            text::lemma_text_lt_irreflexive(c@);
            assert(text::text_lt(ts[j], c@) || text::text_lt(c@, ts[j]));
        }
    }
    None
}

/// A set of texts.
pub struct TextSet {
    all: Vec<Vec<char>>,
    /// The positions in `all`, in the order of their texts, each text once.
    order: Vec<usize>,
}

impl View for TextSet {
    type V = Seq<Seq<char>>;

    closed spec fn view(&self) -> Seq<Seq<char>> {
        texts_at(self.all@, self.order@)
    }
}

impl TextSet {
    #[verifier::type_invariant]
    spec fn inv(self) -> bool {
        inside(self.all@, self.order@) && texts_ascend(texts_at(self.all@, self.order@))
    }

    /// The set of the texts in a list.
    pub fn of_texts(all: Vec<Vec<char>>) -> (r: TextSet)
        ensures
            sorted_once(r@, text::views(all@)),
    {
        let order = sort_last(&all);
        proof {
            let ts = texts_at(all@, order@);
            let vs = text::views(all@);
            assert forall|t: Seq<char>| #[trigger] ts.contains(t) <==> vs.contains(t) by {
                if ts.contains(t) {
                    let i = choose|i: int| 0 <= i < all@.len() && (#[trigger] all@[i])@ == t;
                    assert(vs[i] == t);
                }
                if vs.contains(t) {
                    let i = choose|i: int| 0 <= i < vs.len() && vs[i] == t;
                    assert(all@[i]@ == t);
                }
            }
        }
        TextSet { all, order }
    }

    /// The set of the strings in a list.
    pub fn of(v: &Vec<String>) -> (r: TextSet)
        ensures
            sorted_once(r@, text::string_views(v@)),
    {
        let mut all: Vec<Vec<char>> = Vec::new();
        let n: usize = v.len();
        for i in 0..n
            invariant
                n == v@.len(),
                all@.len() == i,
                forall|j: int| 0 <= j < i ==> (#[trigger] all@[j])@ == v@[j]@,
        {
            all.push(text::chars_of(v[i].as_str()));
        }
        assert(text::views(all@) =~= text::string_views(v@));
        TextSet::of_texts(all)
    }

    /// How many texts are in the set.
    pub fn len(&self) -> (r: usize)
        ensures
            r == self@.len(),
    {
        self.order.len()
    }

    /// Where a text stands in the set.
    pub fn place(&self, t: &[char]) -> (r: Option<usize>)
        ensures
            match r {
                Some(k) => k < self@.len() && self@[k as int] == t@,
                None => !self@.contains(t@),
            },
    {
        proof {
            use_type_invariant(self);
        }
        find_text(&self.all, &self.order, t)
    }

    /// Whether a text is in the set.
    pub fn contains(&self, t: &str) -> (r: bool)
        ensures
            r == self@.contains(t@),
    {
        match self.place(&text::chars_of(t)) {
            Some(_k) => true,
            None => false,
        }
    }

    /// The texts, in ascending order.
    pub fn list(&self) -> (r: Vec<String>)
        ensures
            text::string_views(r@) == self@,
    {
        proof {
            use_type_invariant(self);
        }
        let mut out: Vec<String> = Vec::new();
        let n: usize = self.order.len();
        for i in 0..n
            invariant
                n == self.order@.len(),
                inside(self.all@, self.order@),
                out@.len() == i,
                forall|j: int|
                    0 <= j < i ==> (#[trigger] out@[j])@ == self.all@[self.order@[j] as int]@,
        {
            out.push(text::string_of(&self.all[self.order[i]]));
        }
        assert(text::string_views(out@) =~= texts_at(self.all@, self.order@));
        out
    }
}

/// Lists texts in ascending order, each once.
pub fn sort_once(v: &Vec<String>) -> (r: Vec<String>)
    ensures
        sorted_once(text::string_views(r@), text::string_views(v@)),
{
    TextSet::of(v).list()
}

/// The texts of a list, each once, in ascending order.
pub open spec fn distinct(all: Seq<Seq<char>>) -> Seq<Seq<char>> {
    choose|s: Seq<Seq<char>>| sorted_once(s, all)
}

/// A sorted list without repetition is determined by what it lists.
pub proof fn sorted_once_unique(a: Seq<Seq<char>>, b: Seq<Seq<char>>, all: Seq<Seq<char>>)
    requires
        sorted_once(a, all),
        sorted_once(b, all),
    ensures
        a == b,
        a == distinct(all),
{
    assert(sorted_once(distinct(all), all));
    assert forall|t: Seq<char>| #[trigger] a.contains(t) <==> distinct(all).contains(t) by {}
    lemma_ascending_unique(a, distinct(all));
    assert forall|t: Seq<char>| #[trigger] a.contains(t) <==> b.contains(t) by {}
    lemma_ascending_unique(a, b);
}

/// Texts in ascending order differ.
pub proof fn lemma_ascending_differ(s: Seq<Seq<char>>, i: int, j: int)
    requires
        texts_ascend(s),
        0 <= i < s.len(),
        0 <= j < s.len(),
        s[i] == s[j],
    ensures
        i == j,
{
    text::lemma_text_lt_irreflexive(s[i]);
    if i < j {
        assert(text::text_lt(s[i], s[j]));
    } else if j < i {
        assert(text::text_lt(s[j], s[i]));
    }
}

proof fn lemma_ascending_unique(a: Seq<Seq<char>>, b: Seq<Seq<char>>)
    requires
        texts_ascend(a),
        texts_ascend(b),
        forall|t: Seq<char>| #[trigger] a.contains(t) <==> b.contains(t),
    ensures
        a == b,
    decreases a.len(),
{
    if a.len() == 0 {
        if b.len() != 0 {
            assert(b.contains(b[0]));
            assert(a.contains(b[0]));
        }
        assert(a =~= b);
    } else {
        assert(a.contains(a[0]));
        let j = choose|j: int| 0 <= j < b.len() && b[j] == a[0];
        assert(b.contains(b[0]));
        assert(a.contains(b[0]));
        let i = choose|i: int| 0 <= i < a.len() && a[i] == b[0];
        if j > 0 {
            assert(text::text_lt(b[0], b[j]));
            if i > 0 {
                assert(text::text_lt(a[0], a[i]));
                text::lemma_text_lt_transitive(a[0], b[0], a[0]);
            }
            text::lemma_text_lt_irreflexive(a[0]);
        }
        assert(a[0] == b[0]);
        let ta = a.drop_first();
        let tb = b.drop_first();
        assert forall|t: Seq<char>| #[trigger] ta.contains(t) <==> tb.contains(t) by {
            text::lemma_text_lt_irreflexive(t);
            if ta.contains(t) {
                let k = choose|k: int| 0 <= k < ta.len() && ta[k] == t;
                assert(a[k + 1] == t);
                assert(text::text_lt(a[0], a[k + 1]));
                assert(a.contains(t));
                let m = choose|m: int| 0 <= m < b.len() && b[m] == t;
                assert(tb[m - 1] == t);
            }
            if tb.contains(t) {
                let k = choose|k: int| 0 <= k < tb.len() && tb[k] == t;
                assert(b[k + 1] == t);
                assert(text::text_lt(b[0], b[k + 1]));
                assert(a.contains(t));
                let m = choose|m: int| 0 <= m < a.len() && a[m] == t;
                assert(ta[m - 1] == t);
            }
        }
        assert forall|x: int, y: int| 0 <= x < y < ta.len() implies text::text_lt(
            #[trigger] ta[x],
            #[trigger] ta[y],
        ) by {
            assert(text::text_lt(a[x + 1], a[y + 1]));
        }
        assert forall|x: int, y: int| 0 <= x < y < tb.len() implies text::text_lt(
            #[trigger] tb[x],
            #[trigger] tb[y],
        ) by {
            assert(text::text_lt(b[x + 1], b[y + 1]));
        }
        lemma_ascending_unique(ta, tb);
        assert(a =~= seq![a[0]] + ta);
        assert(b =~= seq![b[0]] + tb);
    }
}

/// An ascending list with one more text in its place.
spec fn with_text(s: Seq<Seq<char>>, t: Seq<char>) -> Seq<Seq<char>>
    decreases s.len(),
{
    if s.len() == 0 || text::text_lt(s.last(), t) {
        s.push(t)
    } else {
        with_text(s.drop_last(), t).push(s.last())
    }
}

proof fn lemma_with_text(s: Seq<Seq<char>>, t: Seq<char>)
    requires
        texts_ascend(s),
        !s.contains(t),
    ensures
        texts_ascend(with_text(s, t)),
        forall|x: Seq<char>| #[trigger] with_text(s, t).contains(x) <==> s.contains(x) || x == t,
    decreases s.len(),
{
    let r = with_text(s, t);
    if s.len() == 0 || text::text_lt(s.last(), t) {
        assert forall|i: int, j: int| 0 <= i < j < r.len() implies text::text_lt(
            #[trigger] r[i],
            #[trigger] r[j],
        ) by {
            if j == s.len() && i < s.len() - 1 {
                assert(text::text_lt(s[i], s[s.len() - 1]));
                text::lemma_text_lt_transitive(s[i], s.last(), t);
            }
        }
        assert forall|x: Seq<char>| #[trigger] r.contains(x) <==> s.contains(x) || x == t by {
            if s.contains(x) {
                let i = choose|i: int| 0 <= i < s.len() && s[i] == x;
                assert(r[i] == x);
            }
            assert(r[s.len() as int] == t);
            if r.contains(x) && x != t {
                let i = choose|i: int| 0 <= i < r.len() && r[i] == x;
                assert(s[i] == x);
            }
        }
    } else {
        let init = s.drop_last();
        let last = s.last();
        assert(s[s.len() - 1] == last);
        text::lemma_text_lt_total(t, last);
        assert(t != last) by {
            if t == last {
                assert(s.contains(t));
            }
        }
        assert forall|i: int, j: int| 0 <= i < j < init.len() implies text::text_lt(
            #[trigger] init[i],
            #[trigger] init[j],
        ) by {
            assert(text::text_lt(s[i], s[j]));
        }
        assert(!init.contains(t)) by {
            if init.contains(t) {
                let i = choose|i: int| 0 <= i < init.len() && init[i] == t;
                assert(s[i] == t);
            }
        }
        lemma_with_text(init, t);
        let w = with_text(init, t);
        assert forall|i: int, j: int| 0 <= i < j < r.len() implies text::text_lt(
            #[trigger] r[i],
            #[trigger] r[j],
        ) by {
            if j < w.len() {
                assert(text::text_lt(w[i], w[j]));
            } else {
                assert(w.contains(w[i]));
                if w[i] != t {
                    assert(init.contains(w[i]));
                    let k = choose|k: int| 0 <= k < init.len() && init[k] == w[i];
                    assert(text::text_lt(s[k], s[s.len() - 1]));
                }
            }
        }
        assert forall|x: Seq<char>| #[trigger] r.contains(x) <==> s.contains(x) || x == t by {
            if r.contains(x) && x != t {
                let i = choose|i: int| 0 <= i < r.len() && r[i] == x;
                if i < w.len() {
                    assert(w[i] == x);
                    assert(w.contains(x));
                    assert(init.contains(x));
                    let k = choose|k: int| 0 <= k < init.len() && init[k] == x;
                    assert(s[k] == x);
                } else {
                    assert(s[s.len() - 1] == x);
                }
            }
            if s.contains(x) {
                let k = choose|k: int| 0 <= k < s.len() && s[k] == x;
                if k < init.len() {
                    assert(init[k] == x);
                    assert(init.contains(x));
                    assert(w.contains(x));
                    let i = choose|i: int| 0 <= i < w.len() && w[i] == x;
                    assert(r[i] == x);
                } else {
                    assert(r[w.len() as int] == x);
                }
            }
            if x == t {
                assert(w.contains(t));
                let i = choose|i: int| 0 <= i < w.len() && w[i] == t;
                assert(r[i] == t);
            }
        }
    }
}

proof fn lemma_sorted_once_exists(all: Seq<Seq<char>>) -> (r: Seq<Seq<char>>)
    ensures
        sorted_once(r, all),
    decreases all.len(),
{
    if all.len() == 0 {
        let r = Seq::<Seq<char>>::empty();
        assert(sorted_once(r, all));
        r
    } else {
        let init = all.drop_last();
        let t = all.last();
        assert(all[all.len() - 1] == t);
        let s = lemma_sorted_once_exists(init);
        let r = if s.contains(t) {
            s
        } else {
            with_text(s, t)
        };
        if !s.contains(t) {
            lemma_with_text(s, t);
        }
        assert forall|x: Seq<char>| #[trigger] r.contains(x) <==> all.contains(x) by {
            assert(s.contains(x) <==> init.contains(x));
            if init.contains(x) {
                let i = choose|i: int| 0 <= i < init.len() && init[i] == x;
                assert(all[i] == x);
            }
            if all.contains(x) && x != t {
                let i = choose|i: int| 0 <= i < all.len() && all[i] == x;
                assert(init[i] == x);
            }
        }
        r
    }
}

/// The texts of a list, each once, are sorted.
pub proof fn lemma_distinct(all: Seq<Seq<char>>)
    ensures
        sorted_once(distinct(all), all),
{
    let r = lemma_sorted_once_exists(all);
    assert(sorted_once(r, all));
}

/// Repeating or reordering texts leaves the list of them, each once, unchanged.
pub proof fn distinct_goes_by_contents(a: Seq<Seq<char>>, b: Seq<Seq<char>>)
    requires
        forall|t: Seq<char>| #[trigger] a.contains(t) <==> b.contains(t),
    ensures
        distinct(a) == distinct(b),
{
    lemma_distinct(a);
    lemma_distinct(b);
    assert forall|t: Seq<char>| #[trigger] distinct(a).contains(t) <==> distinct(b).contains(t) by {
        assert(distinct(a).contains(t) <==> a.contains(t));
        assert(distinct(b).contains(t) <==> b.contains(t));
    }
    lemma_ascending_unique(distinct(a), distinct(b));
}

/// A sorted list holds every text of another, once, the lower ones first, and nothing else.
pub proof fn sorted_lists_hold_the_same(s: Seq<Seq<char>>, all: Seq<Seq<char>>, i: int, j: int)
    requires
        sorted_once(s, all),
    ensures
        0 <= i < all.len() ==> s.contains(all[i]),
        0 <= i < s.len() ==> all.contains(s[i]),
        0 <= i < j < s.len() ==> s[i] != s[j] && text::text_lt(s[i], s[j]),
{
    if 0 <= i < all.len() {
        assert(all.contains(all[i]));
    }
    if 0 <= i < s.len() {
        assert(s.contains(s[i]));
    }
    if 0 <= i < j < s.len() {
        text::lemma_text_lt_irreflexive(s[i]);
    }
}

} // verus!
