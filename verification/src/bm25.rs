//! What a lexical ranking depends on: lengths, term frequencies and document frequencies.

use vstd::prelude::*;

use crate::ask;
use crate::graph::{GraphV, MemGraph};
use crate::model::{F32Bits, Node, NodeId, NodeV};
use crate::sorted;
use crate::sorted::TextSet;
use crate::text;

verus! {

/// How often a term occurs among tokens.
pub open spec fn frequency(tokens: Seq<Seq<char>>, term: Seq<char>) -> nat
    decreases tokens.len(),
{
    if tokens.len() == 0 {
        0
    } else if tokens.last() == term {
        frequency(tokens.drop_last(), term) + 1
    } else {
        frequency(tokens.drop_last(), term)
    }
}

/// The tokens of a node: those of its label and its body.
pub open spec fn doc_tokens(n: NodeV) -> Seq<Seq<char>> {
    text::tokens(n.label.push(' ') + n.body)
}

/// How often each term occurs among tokens.
pub open spec fn frequencies(tokens: Seq<Seq<char>>, terms: Seq<Seq<char>>) -> Seq<nat> {
    terms.map_values(|t: Seq<char>| frequency(tokens, t))
}

/// A node in which some term occurs.
pub struct Doc {
    pub id: NodeId,
    /// The prior of its kind.
    pub weight: F32Bits,
    /// Its degree, where that counts.
    pub degree: Option<usize>,
    /// The number of its tokens.
    pub len: usize,
    /// How often each term occurs in it.
    pub tf: Vec<usize>,
}

/// What a document says.
#[verifier::ext_equal]
pub struct DocV {
    pub id: NodeId,
    pub weight: F32Bits,
    pub degree: Option<usize>,
    pub len: nat,
    pub tf: Seq<nat>,
}

/// Numbers, viewed.
pub open spec fn nats(v: Seq<usize>) -> Seq<nat> {
    v.map_values(|x: usize| x as nat)
}

impl View for Doc {
    type V = DocV;

    open spec fn view(&self) -> DocV {
        DocV {
            id: self.id,
            weight: self.weight,
            degree: self.degree,
            len: self.len as nat,
            tf: nats(self.tf@),
        }
    }
}

/// The views of a list of documents.
pub open spec fn doc_views(v: Seq<Doc>) -> Seq<DocV> {
    v.map_values(|d: Doc| d@)
}

/// The document of a node.
pub open spec fn doc_of(g: GraphV, n: NodeV, terms: Seq<Seq<char>>) -> DocV {
    DocV {
        id: n.id,
        weight: ask::weight_of(n.kind),
        degree: ask::degree_of(g, n),
        len: doc_tokens(n).len(),
        tf: frequencies(doc_tokens(n), terms),
    }
}

/// Whether some term occurs.
pub open spec fn any_term(tf: Seq<nat>) -> bool {
    exists|q: int| 0 <= q < tf.len() && #[trigger] tf[q] > 0
}

/// The documents of the nodes in which some term occurs.
pub open spec fn docs_of(g: GraphV, ids: Seq<NodeId>, terms: Seq<Seq<char>>) -> Seq<DocV>
    decreases ids.len(),
{
    if ids.len() == 0 {
        Seq::empty()
    } else {
        let before = docs_of(g, ids.drop_last(), terms);
        let d = doc_of(g, g.nodes[ids.last()], terms);
        if any_term(d.tf) {
            before.push(d)
        } else {
            before
        }
    }
}

/// In how many documents a term occurs.
pub open spec fn doc_frequency(docs: Seq<DocV>, q: int) -> nat
    decreases docs.len(),
{
    if docs.len() == 0 {
        0
    } else if docs.last().tf[q] > 0 {
        doc_frequency(docs.drop_last(), q) + 1
    } else {
        doc_frequency(docs.drop_last(), q)
    }
}

/// The number of tokens of all nodes.
pub open spec fn total_len_of(g: GraphV, ids: Seq<NodeId>) -> nat
    decreases ids.len(),
{
    if ids.len() == 0 {
        0
    } else {
        total_len_of(g, ids.drop_last()) + doc_tokens(g.nodes[ids.last()]).len()
    }
}

/// What the ranking depends on.
pub struct Stats {
    /// The number of nodes, at least one.
    pub n_docs: usize,
    /// The number of tokens of all nodes.
    pub total_len: u128,
    /// In how many documents each term occurs.
    pub df: Vec<usize>,
    pub docs: Vec<Doc>,
}

/// What the ranking depends on.
#[verifier::ext_equal]
pub struct StatsV {
    pub n_docs: nat,
    pub total_len: nat,
    pub df: Seq<nat>,
    pub docs: Seq<DocV>,
}

impl View for Stats {
    type V = StatsV;

    open spec fn view(&self) -> StatsV {
        StatsV {
            n_docs: self.n_docs as nat,
            total_len: self.total_len as nat,
            df: nats(self.df@),
            docs: doc_views(self.docs@),
        }
    }
}

/// What the ranking of the nodes of a graph by terms depends on.
pub open spec fn stats_for(g: GraphV, terms: Seq<Seq<char>>) -> StatsV {
    let docs = docs_of(g, g.order, terms);
    StatsV {
        n_docs: if g.order.len() == 0 {
            1
        } else {
            g.order.len()
        },
        total_len: total_len_of(g, g.order),
        df: Seq::new(terms.len(), |q: int| doc_frequency(docs, q)),
        docs,
    }
}

/// What the ranking of the nodes of a graph depends on: each distinct token of the query is a
/// term.
pub open spec fn stats_of(g: GraphV, tokens: Seq<Seq<char>>) -> StatsV {
    stats_for(g, sorted::distinct(tokens))
}

proof fn lemma_frequency_bound(tokens: Seq<Seq<char>>, term: Seq<char>)
    ensures
        frequency(tokens, term) <= tokens.len(),
    decreases tokens.len(),
{
    if tokens.len() != 0 {
        lemma_frequency_bound(tokens.drop_last(), term);
    }
}

proof fn lemma_doc_frequency_bound(docs: Seq<DocV>, q: int)
    ensures
        doc_frequency(docs, q) <= docs.len(),
    decreases docs.len(),
{
    if docs.len() != 0 {
        lemma_doc_frequency_bound(docs.drop_last(), q);
    }
}

fn zeros(n: usize) -> (r: Vec<usize>)
    ensures
        r@.len() == n,
        forall|i: int| 0 <= i < n ==> #[trigger] r@[i] == 0,
{
    let mut out: Vec<usize> = Vec::new();
    for i in 0..n
        invariant
            out@.len() == i,
            forall|j: int| 0 <= j < i ==> #[trigger] out@[j] == 0,
    {
        out.push(0);
    }
    out
}

fn count_terms(tokens: &Vec<Vec<char>>, terms: &TextSet) -> (r: Vec<usize>)
    requires
        sorted::texts_ascend(terms@),
    ensures
        nats(r@) == frequencies(text::views(tokens@), terms@),
{
    let mut tf: Vec<usize> = zeros(terms.len());
    let ghost ts = text::views(tokens@);
    let n: usize = tokens.len();
    assert(ts.take(0) =~= Seq::empty());
    for i in 0..n
        invariant
            n == tokens@.len(),
            ts == text::views(tokens@),
            sorted::texts_ascend(terms@),
            tf@.len() == terms@.len(),
            forall|q: int|
                0 <= q < tf@.len() ==> #[trigger] tf@[q] == frequency(ts.take(i as int), terms@[q]),
    {
        assert(ts.take(i + 1).drop_last() =~= ts.take(i as int));
        assert(ts.take(i + 1).last() == tokens@[i as int]@);
        let ghost before = tf@;
        match terms.place(&tokens[i]) {
            Some(q) => {
                proof {
                    lemma_frequency_bound(ts.take(i as int), terms@[q as int]);
                }
                let c: usize = tf[q];
                tf.set(q, c + 1);
                assert forall|p: int| 0 <= p < tf@.len() implies #[trigger] tf@[p] == frequency(
                    ts.take(i + 1),
                    terms@[p],
                ) by {
                    assert(before[p] == frequency(ts.take(i as int), terms@[p]));
                    if terms@[p] == tokens@[i as int]@ {
                        sorted::lemma_ascending_differ(terms@, p, q as int);
                    }
                }
            },
            None => {
                assert forall|p: int| 0 <= p < tf@.len() implies #[trigger] tf@[p] == frequency(
                    ts.take(i + 1),
                    terms@[p],
                ) by {
                    assert(terms@.contains(terms@[p]));
                }
            },
        }
    }
    assert(ts.take(n as int) =~= ts);
    assert(nats(tf@) =~= frequencies(ts, terms@));
    tf
}

fn has_term(tf: &Vec<usize>) -> (r: bool)
    ensures
        r == any_term(nats(tf@)),
{
    let n: usize = tf.len();
    for i in 0..n
        invariant
            n == tf@.len(),
            forall|q: int| 0 <= q < i ==> #[trigger] nats(tf@)[q] == 0,
    {
        if tf[i] > 0 {
            assert(nats(tf@)[i as int] > 0);
            return true;
        }
    }
    false
}

fn tokens_of(n: &Node) -> (r: Vec<Vec<char>>)
    ensures
        text::views(r@) == doc_tokens(n@),
{
    let mut s = text::chars_of(n.label.as_str());
    s.push(' ');
    text::append_str(&mut s, n.body.as_str());
    text::tokenize(&s)
}

/// Collects what the ranking of the nodes of a graph depends on.
pub fn collect(g: &MemGraph, query: Vec<Vec<char>>) -> (r: Stats)
    requires
        g.wf(),
    ensures
        r@ == stats_of(g@, text::views(query@)),
        doc_views(r.docs@) == stats_of(g@, text::views(query@)).docs,
{
    let ghost asked = text::views(query@);
    let terms = TextSet::of_texts(query);
    proof {
        sorted::sorted_once_unique(terms@, terms@, asked);
        g.shape();
    }
    let m: usize = terms.len();
    let ids = g.ids();
    let n: usize = ids.len();
    let mut df: Vec<usize> = zeros(m);
    let mut docs: Vec<Doc> = Vec::new();
    let mut total: u128 = 0;
    assert(ids@.take(0) =~= Seq::empty());
    assert(doc_views(docs@) =~= Seq::empty());
    for i in 0..n
        invariant
            n == ids@.len(),
            ids@ == g@.order,
            g.wf(),
            forall|id: NodeId| #[trigger] g@.nodes.contains_key(id) <==> g@.order.contains(id),
            sorted::texts_ascend(terms@),
            m == terms@.len() == df@.len(),
            total == total_len_of(g@, ids@.take(i as int)),
            total <= i * usize::MAX,
            docs@.len() <= i,
            doc_views(docs@) == docs_of(g@, ids@.take(i as int), terms@),
            forall|q: int|
                0 <= q < m ==> #[trigger] df@[q] == doc_frequency(doc_views(docs@), q),
    {
        assert(ids@.take(i + 1).drop_last() =~= ids@.take(i as int));
        assert(g@.order.contains(ids@[i as int]));
        match g.get(ids[i]) {
            Some(node) => {
                let tokens = tokens_of(node);
                let len: usize = tokens.len();
                assert(len == doc_tokens(node@).len());
                assert(i * usize::MAX + len <= (i + 1) * usize::MAX) by (nonlinear_arith)
                    requires
                        len <= usize::MAX,
                ;
                assert((i + 1) * usize::MAX <= usize::MAX * usize::MAX) by (nonlinear_arith)
                    requires
                        i + 1 <= usize::MAX,
                ;
                assert(usize::MAX * usize::MAX <= u128::MAX) by (nonlinear_arith)
                    requires
                        usize::MAX <= 0xffff_ffff_ffff_ffff,
                ;
                total = total + len as u128;
                let tf = count_terms(&tokens, &terms);
                if has_term(&tf) {
                    let ghost before = docs@;
                    let ghost d = doc_of(g@, node@, terms@);
                    let ghost was = df@;
                    for q in 0..m
                        invariant
                            m == tf@.len() == df@.len(),
                            was.len() == m,
                            before.len() <= i < usize::MAX,
                            nats(tf@) == d.tf,
                            forall|p: int|
                                0 <= p < m ==> #[trigger] was[p] == doc_frequency(
                                    doc_views(before),
                                    p,
                                ),
                            forall|p: int|
                                q <= p < m ==> #[trigger] df@[p] == was[p],
                            forall|p: int|
                                0 <= p < q ==> #[trigger] df@[p] == was[p] + (if d.tf[p] > 0 {
                                    1int
                                } else {
                                    0int
                                }),
                    {
                        proof {
                            lemma_doc_frequency_bound(doc_views(before), q as int);
                            assert(df@[q as int] == was[q as int]);
                            assert(d.tf[q as int] == tf@[q as int]);
                        }
                        if tf[q] > 0 {
                            let c: usize = df[q];
                            df.set(q, c + 1);
                        }
                    }
                    let doc = Doc {
                        id: node.id,
                        weight: ask::kind_weight(node.kind),
                        degree: ask::counted_degree(g, node),
                        len,
                        tf,
                    };
                    assert(doc@ =~= d);
                    docs.push(doc);
                    assert(doc_views(docs@) =~= doc_views(before).push(d));
                    assert(doc_views(docs@).drop_last() =~= doc_views(before));
                    assert forall|q: int| 0 <= q < m implies #[trigger] df@[q] == doc_frequency(
                        doc_views(docs@),
                        q,
                    ) by {
                        assert(was[q] == doc_frequency(doc_views(before), q));
                    }
                }
            },
            None => {},
        }
    }
    assert(ids@.take(n as int) =~= ids@);
    let n_docs: usize = if n == 0 {
        1
    } else {
        n
    };
    let r = Stats { n_docs, total_len: total, df, docs };
    assert(r@.df =~= stats_of(g@, asked).df);
    r
}

// ---------------------------------------------------------------------------
// Laws
// ---------------------------------------------------------------------------

/// Repeating or reordering the tokens of a query changes nothing that the ranking depends on.
pub proof fn terms_go_by_contents(g: GraphV, a: Seq<Seq<char>>, b: Seq<Seq<char>>)
    requires
        forall|t: Seq<char>| #[trigger] a.contains(t) <==> b.contains(t),
    ensures
        stats_of(g, a) == stats_of(g, b),
{
    sorted::distinct_goes_by_contents(a, b);
}

proof fn lemma_frequency_positive(tokens: Seq<Seq<char>>, term: Seq<char>)
    ensures
        frequency(tokens, term) > 0 <==> tokens.contains(term),
    decreases tokens.len(),
{
    if tokens.len() != 0 {
        let init = tokens.drop_last();
        lemma_frequency_positive(init, term);
        if tokens.last() == term {
            assert(tokens[tokens.len() - 1] == term);
        }
        if init.contains(term) {
            let i = choose|i: int| 0 <= i < init.len() && init[i] == term;
            assert(tokens[i] == term);
        }
        if tokens.contains(term) && tokens.last() != term {
            let i = choose|i: int| 0 <= i < tokens.len() && tokens[i] == term;
            assert(init[i] == term);
        }
    }
}

proof fn lemma_docs_hold(g: GraphV, ids: Seq<NodeId>, terms: Seq<Seq<char>>, i: int)
    requires
        0 <= i < ids.len(),
        any_term(doc_of(g, g.nodes[ids[i]], terms).tf),
    ensures
        docs_of(g, ids, terms).contains(doc_of(g, g.nodes[ids[i]], terms)),
    decreases ids.len(),
{
    let init = ids.drop_last();
    let d = doc_of(g, g.nodes[ids[i]], terms);
    let all = docs_of(g, ids, terms);
    if i < init.len() {
        assert(init[i] == ids[i]);
        lemma_docs_hold(g, init, terms, i);
        let before = docs_of(g, init, terms);
        let k = choose|k: int| 0 <= k < before.len() && before[k] == d;
        assert(all[k] == d);
    } else {
        assert(all[all.len() - 1] == d);
    }
}

proof fn lemma_docs_mention(g: GraphV, ids: Seq<NodeId>, terms: Seq<Seq<char>>, k: int)
    requires
        0 <= k < docs_of(g, ids, terms).len(),
    ensures
        any_term(docs_of(g, ids, terms)[k].tf),
    decreases ids.len(),
{
    let before = docs_of(g, ids.drop_last(), terms);
    if k < before.len() {
        lemma_docs_mention(g, ids.drop_last(), terms, k);
    }
}

/// A node is among the documents exactly where one of its tokens is a token of the query; so
/// there are none for a query without tokens.
pub proof fn documents_mention_the_query(g: GraphV, query: Seq<Seq<char>>, i: int)
    requires
        0 <= i < g.order.len(),
    ensures
        ({
            let n = g.nodes[g.order[i]];
            let d = doc_of(g, n, sorted::distinct(query));
            stats_of(g, query).docs.contains(d) <==> exists|t: Seq<char>| #[trigger]
                query.contains(t) && doc_tokens(n).contains(t)
        }),
        query.len() == 0 ==> stats_of(g, query).docs.len() == 0,
{
    let terms = sorted::distinct(query);
    let n = g.nodes[g.order[i]];
    let d = doc_of(g, n, terms);
    let docs = stats_of(g, query).docs;
    sorted::lemma_distinct(query);
    if docs.contains(d) {
        let k = choose|k: int| 0 <= k < docs.len() && docs[k] == d;
        lemma_docs_mention(g, g.order, terms, k);
        let q = choose|q: int| 0 <= q < d.tf.len() && #[trigger] d.tf[q] > 0;
        lemma_frequency_positive(doc_tokens(n), terms[q]);
        assert(terms.contains(terms[q]));
        assert(query.contains(terms[q]));
    }
    if exists|t: Seq<char>| #[trigger] query.contains(t) && doc_tokens(n).contains(t) {
        let t = choose|t: Seq<char>| #[trigger] query.contains(t) && doc_tokens(n).contains(t);
        assert(terms.contains(t));
        let q = choose|q: int| 0 <= q < terms.len() && terms[q] == t;
        lemma_frequency_positive(doc_tokens(n), t);
        assert(d.tf[q] > 0);
        lemma_docs_hold(g, g.order, terms, i);
    }
    if query.len() == 0 && docs.len() != 0 {
        lemma_docs_mention(g, g.order, terms, 0);
        let q = choose|q: int| 0 <= q < docs[0].tf.len() && #[trigger] docs[0].tf[q] > 0;
        lemma_docs_width(g, g.order, terms, 0);
        assert(terms.contains(terms[q]));
    }
}

proof fn lemma_docs_width(g: GraphV, ids: Seq<NodeId>, terms: Seq<Seq<char>>, k: int)
    requires
        0 <= k < docs_of(g, ids, terms).len(),
    ensures
        docs_of(g, ids, terms)[k].tf.len() == terms.len(),
    decreases ids.len(),
{
    if k < docs_of(g, ids.drop_last(), terms).len() {
        lemma_docs_width(g, ids.drop_last(), terms, k);
    }
}

/// The frequency of a term is the number of the tokens that are the term.
pub proof fn frequencies_count_tokens(tokens: Seq<Seq<char>>, term: Seq<char>)
    ensures
        frequency(tokens, term) == tokens.filter(|t: Seq<char>| t == term).len(),
    decreases tokens.len(),
{
    reveal(Seq::filter);
    if tokens.len() != 0 {
        frequencies_count_tokens(tokens.drop_last(), term);
    }
}

/// The words of the label and those of the body of a node can both be found.
pub proof fn labels_and_bodies_are_indexed(n: NodeV, a: int, b: int)
    ensures
        0 <= a < b <= n.label.len() && (a == 0 || !text::is_word(n.label[a - 1])) && (b
            == n.label.len() || !text::is_word(n.label[b])) && (forall|j: int|
            a <= j < b ==> text::is_word(#[trigger] n.label[j])) && vstd::utf8::encode_utf8(
            n.label.subrange(a, b),
        ).len() > 1 ==> doc_tokens(n).contains(text::lowered(n.label.subrange(a, b))),
        0 <= a < b <= n.body.len() && (a == 0 || !text::is_word(n.body[a - 1])) && (b
            == n.body.len() || !text::is_word(n.body[b])) && (forall|j: int|
            a <= j < b ==> text::is_word(#[trigger] n.body[j])) && vstd::utf8::encode_utf8(
            n.body.subrange(a, b),
        ).len() > 1 ==> doc_tokens(n).contains(text::lowered(n.body.subrange(a, b))),
{
    let s = n.label.push(' ') + n.body;
    let k = n.label.len() as int + 1;
    assert(s[k - 1] == ' ');
    if 0 <= a < b <= n.label.len() && (a == 0 || !text::is_word(n.label[a - 1])) && (b
        == n.label.len() || !text::is_word(n.label[b])) && (forall|j: int|
        a <= j < b ==> text::is_word(#[trigger] n.label[j])) && vstd::utf8::encode_utf8(
        n.label.subrange(a, b),
    ).len() > 1 {
        assert(s.subrange(a, b) =~= n.label.subrange(a, b));
        assert forall|j: int| a <= j < b implies text::is_word(#[trigger] s[j]) by {
            assert(s[j] == n.label[j]);
        }
        if b < n.label.len() {
            assert(s[b] == n.label[b]);
        }
        if a > 0 {
            assert(s[a - 1] == n.label[a - 1]);
        }
        text::every_word_is_a_token(s, a, b);
    }
    if 0 <= a < b <= n.body.len() && (a == 0 || !text::is_word(n.body[a - 1])) && (b
        == n.body.len() || !text::is_word(n.body[b])) && (forall|j: int|
        a <= j < b ==> text::is_word(#[trigger] n.body[j])) && vstd::utf8::encode_utf8(
        n.body.subrange(a, b),
    ).len() > 1 {
        assert(s.subrange(k + a, k + b) =~= n.body.subrange(a, b));
        assert forall|j: int| k + a <= j < k + b implies text::is_word(#[trigger] s[j]) by {
            assert(s[j] == n.body[j - k]);
        }
        if b < n.body.len() {
            assert(s[k + b] == n.body[b]);
        }
        if a > 0 {
            assert(s[k + a - 1] == n.body[a - 1]);
        }
        text::every_word_is_a_token(s, k + a, k + b);
    }
}

/// A document says of its node how long it is, how often each term occurs in it, and what it
/// weighs.
pub proof fn documents_count_terms(g: GraphV, n: NodeV, terms: Seq<Seq<char>>, q: int)
    requires
        0 <= q < terms.len(),
    ensures
        doc_of(g, n, terms).id == n.id,
        doc_of(g, n, terms).len == doc_tokens(n).len(),
        doc_of(g, n, terms).tf.len() == terms.len(),
        doc_of(g, n, terms).tf[q] == frequency(doc_tokens(n), terms[q]),
        doc_of(g, n, terms).weight == ask::weight_of(n.kind),
        doc_of(g, n, terms).degree == ask::degree_of(g, n),
{
}

/// How many documents a term occurs in is how many of them have it at least once.
pub proof fn document_frequencies_count_documents(docs: Seq<DocV>, q: int)
    ensures
        doc_frequency(docs, q) == docs.filter(|d: DocV| d.tf[q] > 0).len(),
    decreases docs.len(),
{
    reveal(Seq::filter);
    if docs.len() != 0 {
        document_frequencies_count_documents(docs.drop_last(), q);
    }
}

/// All tokens of all nodes are counted.
pub proof fn all_tokens_are_counted(g: GraphV, ids: Seq<NodeId>)
    ensures
        total_len_of(g, ids) == ids.fold_left(
            0nat,
            |sum: nat, id: NodeId| sum + doc_tokens(g.nodes[id]).len(),
        ),
    decreases ids.len(),
{
    reveal(Seq::fold_left);
    if ids.len() != 0 {
        all_tokens_are_counted(g, ids.drop_last());
    }
}

/// The statistics speak of all the nodes of a graph, and of one at least.
pub proof fn statistics_cover_the_graph(g: GraphV, terms: Seq<Seq<char>>, q: int)
    requires
        0 <= q < terms.len(),
    ensures
        g.order.len() != 0 ==> stats_for(g, terms).n_docs == g.order.len(),
        g.order.len() == 0 ==> stats_for(g, terms).n_docs == 1,
        stats_for(g, terms).df.len() == terms.len(),
        stats_for(g, terms).df[q] == stats_for(g, terms).docs.filter(|d: DocV| d.tf[q] > 0).len(),
        stats_for(g, terms).total_len == total_len_of(g, g.order),
{
    document_frequencies_count_documents(stats_for(g, terms).docs, q);
}

/// The documents are those of the nodes in which some term occurs, in the order of the nodes,
/// each once.
pub proof fn documents_come_in_order(g: GraphV, ids: Seq<NodeId>, terms: Seq<Seq<char>>)
    ensures
        docs_of(g, ids, terms) == ids.filter_map(
            |id: NodeId|
                if exists|q: int|
                    0 <= q < terms.len() && frequency(
                        doc_tokens(g.nodes[id]),
                        #[trigger] terms[q],
                    ) > 0 {
                    Some(doc_of(g, g.nodes[id], terms))
                } else {
                    None
                },
        ),
    decreases ids.len(),
{
    if ids.len() != 0 {
        documents_come_in_order(g, ids.drop_last(), terms);
        let n = g.nodes[ids.last()];
        let tf = doc_of(g, n, terms).tf;
        assert(any_term(tf) <==> exists|q: int|
            0 <= q < terms.len() && frequency(doc_tokens(n), #[trigger] terms[q]) > 0) by {
            if any_term(tf) {
                let q = choose|q: int| 0 <= q < tf.len() && #[trigger] tf[q] > 0;
                assert(frequency(doc_tokens(n), terms[q]) > 0);
            }
            if exists|q: int|
                0 <= q < terms.len() && frequency(doc_tokens(n), #[trigger] terms[q]) > 0 {
                let q = choose|q: int|
                    0 <= q < terms.len() && frequency(doc_tokens(n), #[trigger] terms[q]) > 0;
                assert(tf[q] > 0);
            }
        }
    }
}

/// What a document says: all that it holds.
pub proof fn doc_views_say_all(x: Doc)
    ensures
        x@.id == x.id,
        x@.weight == x.weight,
        x@.degree == x.degree,
        x@.len == x.len as nat,
        x@.tf == nats(x.tf@),
{
}

/// What the statistics says: all that it holds.
pub proof fn stats_views_say_all(x: Stats)
    ensures
        x@.n_docs == x.n_docs as nat,
        x@.total_len == x.total_len as nat,
        x@.df == nats(x.df@),
        x@.docs == doc_views(x.docs@),
{
}

/// Viewing a list keeps all its items, in their order.
pub proof fn doc_views_keep_all(v: Seq<Doc>, i: int)
    requires
        0 <= i < v.len(),
    ensures
        doc_views(v).len() == v.len(),
        doc_views(v)[i] == v[i]@,
{
}

} // verus!
