//! A sorted text-to-text map: the free-form attributes of nodes and edges.

use vstd::prelude::*;

use crate::text;

verus! {

/// Attributes, in key order, each key once.
pub struct Attrs {
    entries: Vec<(String, String)>,
}

/// Strictly ascending keys.
pub open spec fn keys_ascend(s: Seq<(String, String)>) -> bool {
    forall|i: int, j: int|
        0 <= i < j < s.len() ==> text::text_lt(#[trigger] s[i].0@, #[trigger] s[j].0@)
}

/// The map that a list of pairs stands for; a later pair wins.
pub open spec fn pairs_map(s: Seq<(String, String)>) -> Map<Seq<char>, Seq<char>>
    decreases s.len(),
{
    if s.len() == 0 {
        Map::empty()
    } else {
        pairs_map(s.drop_last()).insert(s.last().0@, s.last().1@)
    }
}

pub proof fn lemma_pairs_map(s: Seq<(String, String)>)
    requires
        keys_ascend(s),
    ensures
        forall|i: int|
            0 <= i < s.len() ==> pairs_map(s).contains_key(#[trigger] s[i].0@) && pairs_map(
                s,
            )[s[i].0@] == s[i].1@,
        forall|k: Seq<char>| #[trigger]
            pairs_map(s).contains_key(k) ==> exists|i: int| 0 <= i < s.len() && s[i].0@ == k,
    decreases s.len(),
{
    if s.len() != 0 {
        let t = s.drop_last();
        assert forall|i: int, j: int| 0 <= i < j < t.len() implies text::text_lt(
            #[trigger] t[i].0@,
            #[trigger] t[j].0@,
        ) by {
            assert(t[i] == s[i] && t[j] == s[j]);
        }
        lemma_pairs_map(t);
        assert forall|i: int| 0 <= i < s.len() implies pairs_map(s).contains_key(
            #[trigger] s[i].0@,
        ) && pairs_map(s)[s[i].0@] == s[i].1@ by {
            if i < t.len() {
                assert(t[i] == s[i]);
                text::lemma_text_lt_irreflexive(s[i].0@);
                assert(text::text_lt(s[i].0@, s[s.len() - 1].0@));
            }
        }
        assert forall|k: Seq<char>| #[trigger] pairs_map(s).contains_key(k) implies exists|i: int|
            0 <= i < s.len() && s[i].0@ == k by {
            if k == s.last().0@ {
                assert(s[s.len() - 1].0@ == k);
            } else {
                assert(pairs_map(t).contains_key(k));
                let i = choose|i: int| 0 <= i < t.len() && t[i].0@ == k;
                assert(s[i].0@ == k);
            }
        }
    }
}

impl View for Attrs {
    type V = Map<Seq<char>, Seq<char>>;

    closed spec fn view(&self) -> Map<Seq<char>, Seq<char>> {
        pairs_map(self.entries@)
    }
}

impl Attrs {
    #[verifier::type_invariant]
    spec fn inv(self) -> bool {
        keys_ascend(self.entries@)
    }

    /// The pairs in key order.
    pub closed spec fn pairs(self) -> Seq<(String, String)> {
        self.entries@
    }

    /// No attributes.
    pub fn new() -> (r: Attrs)
        ensures
            r@ == Map::<Seq<char>, Seq<char>>::empty(),
    {
        Attrs { entries: Vec::new() }
    }

    /// The attributes in ascending key order.
    pub fn entries(&self) -> (r: &Vec<(String, String)>)
        ensures
            keys_ascend(r@),
            pairs_map(r@) == self@,
    {
        proof {
            use_type_invariant(self);
        }
        &self.entries
    }

    /// The value of a key.
    pub fn get(&self, key: &str) -> (r: Option<&String>)
        ensures
            match r {
                Some(v) => self@.contains_key(key@) && v@ == self@[key@],
                None => !self@.contains_key(key@),
            },
    {
        proof {
            use_type_invariant(self);
            lemma_pairs_map(self.entries@);
        }
        let n: usize = self.entries.len();
        for i in 0..n
            invariant
                n == self.entries@.len(),
                forall|j: int| 0 <= j < i ==> (#[trigger] self.entries@[j]).0@ != key@,
                forall|j: int|
                    0 <= j < n ==> self@.contains_key(#[trigger] self.entries@[j].0@)
                        && self@[self.entries@[j].0@] == self.entries@[j].1@,
        {
            if text::same_str(self.entries[i].0.as_str(), key) {
                assert(self.entries@[i as int].0@ == key@);
                return Some(&self.entries[i].1);
            }
        }
        None
    }

    /// Sets the value of a key.
    pub fn insert(&mut self, key: &str, value: &str)
        ensures
            final(self)@ == old(self)@.insert(key@, value@),
    {
        proof {
            use_type_invariant(&*self);
            lemma_pairs_map(self.entries@);
        }
        let ghost was = self.entries@;
        let n: usize = self.entries.len();
        let mut out: Vec<(String, String)> = Vec::new();
        let mut i: usize = 0;
        while i < n && text::less_str(self.entries[i].0.as_str(), key)
            invariant
                was == self.entries@,
                keys_ascend(was),
                i <= n == was.len(),
                out@.len() == i,
                forall|j: int|
                    0 <= j < i ==> (#[trigger] out@[j]).0@ == was[j].0@ && out@[j].1@ == was[j].1@,
                forall|j: int| 0 <= j < i ==> text::text_lt((#[trigger] was[j]).0@, key@),
            decreases n - i,
        {
            out.push((self.entries[i].0.clone(), self.entries[i].1.clone()));
            i += 1;
        }
        let ghost at = i as int;
        let mut skip: usize = 0;
        if i < n && text::same_str(self.entries[i].0.as_str(), key) {
            skip = 1;
        }
        proof {
            if i < n {
                text::lemma_text_lt_total(was[at].0@, key@);
            }
        }
        out.push((text::string_of(&text::chars_of(key)), text::string_of(&text::chars_of(value))));
        let mut k: usize = i + skip;
        let ghost d = 1 - skip;
        while k < n
            invariant
                was == self.entries@,
                keys_ascend(was),
                0 <= at <= n == was.len(),
                skip <= 1,
                d == 1 - skip,
                at + skip <= k <= n,
                out@.len() == k + d,
                out@[at].0@ == key@,
                out@[at].1@ == value@,
                forall|j: int|
                    0 <= j < at ==> (#[trigger] out@[j]).0@ == was[j].0@ && out@[j].1@ == was[j].1@,
                forall|j: int|
                    at < j < out@.len() ==> (#[trigger] out@[j]).0@ == was[j - d].0@ && out@[j].1@
                        == was[j - d].1@,
            decreases n - k,
        {
            out.push((self.entries[k].0.clone(), self.entries[k].1.clone()));
            k += 1;
        }
        proof {
            assert(at < n && skip == 0 ==> text::text_lt(key@, was[at].0@));
            assert forall|x: int, y: int| 0 <= x < y < out@.len() implies text::text_lt(
                #[trigger] out@[x].0@,
                #[trigger] out@[y].0@,
            ) by {
                if y < at {
                    assert(text::text_lt(was[x].0@, was[y].0@));
                } else if y == at {
                    assert(text::text_lt(was[x].0@, key@));
                } else {
                    let v = y - d;
                    if x > at {
                        assert(text::text_lt(was[x - d].0@, was[v].0@));
                    } else {
                        // `key` is below every later entry
                        if v > at {
                            assert(text::text_lt(was[at].0@, was[v].0@));
                            if skip == 0 {
                                text::lemma_text_lt_transitive(key@, was[at].0@, was[v].0@);
                            }
                        }
                        assert(text::text_lt(key@, was[v].0@));
                        if x < at {
                            assert(text::text_lt(was[x].0@, was[v].0@));
                        }
                    }
                }
            }
            lemma_pairs_map(out@);
            let a = pairs_map(out@);
            let b = pairs_map(was).insert(key@, value@);
            assert forall|q: Seq<char>|
                (#[trigger] a.dom().contains(q)) == b.dom().contains(q) && (a.dom().contains(q)
                    ==> a[q] == b[q]) by {
                if a.contains_key(q) {
                    let x = choose|x: int| 0 <= x < out@.len() && out@[x].0@ == q;
                    assert(a[q] == out@[x].1@);
                    if x < at {
                        assert(was[x].0@ == q);
                        text::lemma_text_lt_irreflexive(q);
                    } else if x > at {
                        assert(was[x - d].0@ == q);
                        assert(text::text_lt(out@[at].0@, out@[x].0@));
                        text::lemma_text_lt_irreflexive(q);
                    }
                }
                if b.contains_key(q) {
                    if q == key@ {
                        assert(out@[at].0@ == q);
                    } else {
                        let x = choose|x: int| 0 <= x < was.len() && was[x].0@ == q;
                        if x < at {
                            assert(out@[x].0@ == q);
                        } else {
                            assert(out@[x + d].0@ == q);
                        }
                    }
                }
            }
            assert(a =~= b);
        }
        *self = Attrs { entries: out };
    }

    /// Takes over the entries of `other` whose keys are missing here.
    pub fn fill_from(&mut self, other: &Attrs)
        ensures
            final(self)@ == other@.union_prefer_right(old(self)@),
    {
        let entries = other.entries();
        let ghost was = self@;
        let n: usize = entries.len();
        assert(pairs_map(entries@.take(0)).union_prefer_right(was) =~= was);
        for i in 0..n
            invariant
                n == entries@.len(),
                keys_ascend(entries@),
                self@ == pairs_map(entries@.take(i as int)).union_prefer_right(was),
        {
            let ghost m = pairs_map(entries@.take(i as int));
            assert(entries@.take(i + 1).drop_last() =~= entries@.take(i as int));
            proof {
                let k = entries@[i as int].0@;
                let t = entries@.take(i as int);
                assert forall|x: int, y: int| 0 <= x < y < t.len() implies text::text_lt(
                    #[trigger] t[x].0@,
                    #[trigger] t[y].0@,
                ) by {
                    assert(t[x] == entries@[x] && t[y] == entries@[y]);
                }
                lemma_pairs_map(t);
                if m.contains_key(k) {
                    let x = choose|x: int| 0 <= x < t.len() && t[x].0@ == k;
                    assert(text::text_lt(entries@[x].0@, entries@[i as int].0@));
                    text::lemma_text_lt_irreflexive(k);
                }
                assert(m.insert(k, entries@[i as int].1@).union_prefer_right(was) =~= if was.contains_key(k) {
                    m.union_prefer_right(was)
                } else {
                    m.union_prefer_right(was).insert(k, entries@[i as int].1@)
                });
            }
            let present = self.get(entries[i].0.as_str()).is_some();
            if !present {
                self.insert(entries[i].0.as_str(), entries[i].1.as_str());
            }
        }
        assert(entries@.take(n as int) =~= entries@);
    }
}

impl Clone for Attrs {
    fn clone(&self) -> (r: Attrs)
        ensures
            r@ == self@,
    {
        let mut out = Attrs::new();
        out.fill_from(self);
        assert(self@.union_prefer_right(Map::empty()) =~= self@);
        out
    }
}

} // verus!
