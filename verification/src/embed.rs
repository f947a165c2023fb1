//! Embedding: the parts of it that are not floating-point arithmetic.
//!
//! The hashed embedder counts tokens into buckets; the static embedder looks tokens up in a
//! table of vectors. Scaling the counts, averaging the rows and normalising are done by the
//! caller.

use vstd::bytes::u32_from_le_bytes;
use vstd::prelude::*;
use vstd::slice::slice_subrange;

use crate::decimal;
use crate::digest;
use crate::model;
use crate::model::F32Bits;
use crate::sorted;
use crate::text;
use crate::text::CharClass;

verus! {

// ---------------------------------------------------------------------------
// The hashed embedder
// ---------------------------------------------------------------------------

/// The dimension of the hashed embedder.
pub const DIM: usize = 256;

/// The largest count: from here on a single-precision number does not change by one.
pub const COUNT_LIMIT: i32 = 16_777_216;

/// The digest of a token.
pub open spec fn token_digest(t: Seq<char>) -> Seq<u8> {
    digest::blake3_digest(vstd::utf8::encode_utf8(t))@
}

/// The bucket of a token.
pub open spec fn bucket(t: Seq<char>) -> int {
    vstd::bytes::spec_u32_from_le_bytes(token_digest(t).subrange(0, 4)) as int % DIM as int
}

/// Whether a token counts up or down.
pub open spec fn counts_up(t: Seq<char>) -> bool {
    token_digest(t)[4] % 2 == 0
}

/// A count, one up or down, within the limit.
pub open spec fn counted(c: i32, up: bool) -> i32 {
    if up {
        if c < COUNT_LIMIT {
            (c + 1) as i32
        } else {
            c
        }
    } else {
        if c > -COUNT_LIMIT {
            (c - 1) as i32
        } else {
            c
        }
    }
}

/// The counts of tokens in their buckets.
pub open spec fn bag(tokens: Seq<Seq<char>>) -> Seq<i32>
    decreases tokens.len(),
{
    if tokens.len() == 0 {
        Seq::new(DIM as nat, |i: int| 0i32)
    } else {
        let before = bag(tokens.drop_last());
        let t = tokens.last();
        before.update(bucket(t), counted(before[bucket(t)], counts_up(t)))
    }
}

/// The hashed token-bag embedder.
#[derive(Clone, Copy)]
pub struct HashEmbedder;

impl HashEmbedder {
    /// The stable id of the embedder.
    pub fn id(&self) -> (r: String)
        ensures
            r@ == "hash-v1"@,
    {
        model::owned("hash-v1")
    }

    /// The length of its vectors.
    pub fn dim(&self) -> (r: usize)
        ensures
            r == DIM,
    {
        DIM
    }

    /// Counts the tokens of a text into the buckets.
    pub fn counts(&self, s: &str) -> (r: Vec<i32>)
        ensures
            r@ == bag(text::tokens(s@)),
            r@.len() == DIM,
    {
        let tokens = text::tokenize(&text::chars_of(s));
        let ghost ts = text::views(tokens@);
        let mut out: Vec<i32> = Vec::new();
        for i in 0..DIM
            invariant
                out@.len() == i,
                forall|j: int| 0 <= j < i ==> #[trigger] out@[j] == 0,
        {
            out.push(0);
        }
        assert(ts.take(0) =~= Seq::empty());
        assert(out@ =~= bag(ts.take(0)));
        let n: usize = tokens.len();
        for i in 0..n
            invariant
                n == tokens@.len(),
                ts == text::views(tokens@),
                out@ == bag(ts.take(i as int)),
                out@.len() == DIM,
                forall|j: int| 0 <= j < DIM ==> -COUNT_LIMIT <= #[trigger] out@[j] <= COUNT_LIMIT,
        {
            assert(ts.take(i + 1).drop_last() =~= ts.take(i as int));
            assert(ts.take(i + 1).last() == tokens@[i as int]@);
            let t = text::string_of(&tokens[i]);
            let h = digest::blake3_hash(t.as_str().as_bytes());
            let field = slice_subrange(&h, 0, 4);
            let at: usize = (u32_from_le_bytes(field) % 256) as usize;
            assert(at as int == bucket(t@));
            let c: i32 = out[at];
            let next: i32 = if h[4] % 2 == 0 {
                if c < COUNT_LIMIT {
                    c + 1
                } else {
                    c
                }
            } else {
                if c > -COUNT_LIMIT {
                    c - 1
                } else {
                    c
                }
            };
            out.set(at, next);
            assert(out@ =~= bag(ts.take(i + 1)));
        }
        assert(ts.take(n as int) =~= ts);
        out
    }
}

// ---------------------------------------------------------------------------
// The static embedder
// ---------------------------------------------------------------------------

/// The vectors of a list of rows by token; a later row wins.
pub open spec fn rows_map(rows: Seq<(Seq<char>, Seq<F32Bits>)>) -> Map<Seq<char>, Seq<F32Bits>>
    decreases rows.len(),
{
    if rows.len() == 0 {
        Map::empty()
    } else {
        rows_map(rows.drop_last()).insert(rows.last().0, rows.last().1)
    }
}

proof fn lemma_rows_map(rows: Seq<(Seq<char>, Seq<F32Bits>)>)
    ensures
        forall|t: Seq<char>| #[trigger]
            rows_map(rows).contains_key(t) <==> exists|i: int|
                0 <= i < rows.len() && (#[trigger] rows[i]).0 == t,
        forall|i: int|
            0 <= i < rows.len() && (forall|j: int|
                i < j < rows.len() ==> (#[trigger] rows[j]).0 != rows[i].0) ==> rows_map(
                rows,
            )[(#[trigger] rows[i]).0] == rows[i].1,
    decreases rows.len(),
{
    if rows.len() != 0 {
        let init = rows.drop_last();
        let k = rows.len() - 1;
        lemma_rows_map(init);
        assert forall|t: Seq<char>| #[trigger] rows_map(rows).contains_key(t) <==> exists|i: int|
            0 <= i < rows.len() && (#[trigger] rows[i]).0 == t by {
            if rows_map(rows).contains_key(t) {
                if t == rows.last().0 {
                    assert(rows[k].0 == t);
                } else {
                    assert(rows_map(init).contains_key(t));
                    let i = choose|i: int| 0 <= i < init.len() && (#[trigger] init[i]).0 == t;
                    assert(rows[i].0 == t);
                }
            }
            if exists|i: int| 0 <= i < rows.len() && (#[trigger] rows[i]).0 == t {
                let i = choose|i: int| 0 <= i < rows.len() && (#[trigger] rows[i]).0 == t;
                if i < k {
                    assert(init[i].0 == t);
                    assert(rows_map(init).contains_key(t));
                }
            }
        }
        assert forall|i: int|
            0 <= i < rows.len() && (forall|j: int|
                i < j < rows.len() ==> (#[trigger] rows[j]).0 != rows[i].0) implies rows_map(
            rows,
        )[(#[trigger] rows[i]).0] == rows[i].1 by {
            if i < k {
                assert(rows[k].0 != rows[i].0);
                assert(init[i] == rows[i]);
                assert forall|j: int| i < j < init.len() implies (#[trigger] init[j]).0 != init[i].0 by {
                    assert(init[j] == rows[j]);
                }
            }
        }
    }
}

/// The rows of a token list and a vector list.
pub open spec fn rows_of(tokens: Seq<Vec<char>>, vectors: Seq<Vec<F32Bits>>) -> Seq<
    (Seq<char>, Seq<F32Bits>),
> {
    Seq::new(tokens.len(), |i: int| (tokens[i]@, vectors[i]@))
}

/// The rows of the tokens that a table knows, in order.
pub open spec fn known_rows_of(table: Map<Seq<char>, Seq<F32Bits>>, tokens: Seq<Seq<char>>) -> Seq<
    Seq<F32Bits>,
>
    decreases tokens.len(),
{
    if tokens.len() == 0 {
        Seq::empty()
    } else {
        let before = known_rows_of(table, tokens.drop_last());
        if table.contains_key(tokens.last()) {
            before.push(table[tokens.last()])
        } else {
            before
        }
    }
}

/// What a static embedder is.
#[verifier::ext_equal]
pub struct StaticV {
    pub id: Seq<char>,
    pub dim: usize,
    pub table: Map<Seq<char>, Seq<F32Bits>>,
}

/// The static embedder: a table of token vectors.
pub struct StaticEmbedder {
    id: String,
    dim: usize,
    tokens: Vec<Vec<char>>,
    vectors: Vec<Vec<F32Bits>>,
    /// The positions of the tokens in ascending order, each token once, at its last row.
    order: Vec<usize>,
}

impl View for StaticEmbedder {
    type V = StaticV;

    closed spec fn view(&self) -> StaticV {
        StaticV {
            id: self.id@,
            dim: self.dim,
            table: rows_map(rows_of(self.tokens@, self.vectors@)),
        }
    }
}

impl StaticEmbedder {
    #[verifier::type_invariant]
    spec fn inv(self) -> bool {
        let all = self.tokens@;
        &&& self.vectors@.len() == all.len()
        &&& sorted::inside(all, self.order@)
        &&& sorted::texts_ascend(sorted::texts_at(all, self.order@))
        &&& sorted::lists_last(all, self.order@, 0, all.len() as int)
        &&& forall|t: Seq<char>| #[trigger]
            sorted::texts_at(all, self.order@).contains(t) <==> exists|i: int|
                0 <= i < all.len() && (#[trigger] all[i])@ == t
    }

    fn build(id: String, dim: usize, tokens: Vec<Vec<char>>, vectors: Vec<Vec<F32Bits>>) -> (r: StaticEmbedder)
        requires
            tokens@.len() == vectors@.len(),
        ensures
            r@.id == id@,
            r@.dim == dim,
            r@.table == rows_map(rows_of(tokens@, vectors@)),
    {
        let order = sorted::sort_last(&tokens);
        StaticEmbedder { id, dim, tokens, vectors, order }
    }

    /// A table from rows; the dimension is that of the first one.
    pub fn from_table(id: &str, rows: Vec<(String, Vec<F32Bits>)>) -> (r: StaticEmbedder)
        ensures
            r@.id == id@,
            r@.dim == (if rows@.len() == 0 {
                0
            } else {
                rows@[0].1@.len() as usize
            }),
            r@.table == rows_map(
                rows@.map_values(|x: (String, Vec<F32Bits>)| (x.0@, x.1@)),
            ),
    {
        let ghost all = rows@;
        let dim: usize = if rows.len() == 0 {
            0
        } else {
            rows[0].1.len()
        };
        let mut tokens: Vec<Vec<char>> = Vec::new();
        let mut vectors: Vec<Vec<F32Bits>> = Vec::new();
        for x in it: rows
            invariant
                it.seq() == all,
                tokens@.len() == it.index(),
                vectors@.len() == it.index(),
                forall|j: int|
                    0 <= j < it.index() ==> (#[trigger] tokens@[j])@ == all[j].0@ && vectors@[j]@
                        == all[j].1@,
        {
            let (t, v) = x;
            tokens.push(text::chars_of(t.as_str()));
            vectors.push(v);
        }
        assert(rows_of(tokens@, vectors@) =~= all.map_values(
            |x: (String, Vec<F32Bits>)| (x.0@, x.1@),
        ));
        StaticEmbedder::build(model::owned(id), dim, tokens, vectors)
    }

    /// The stable id of the embedder.
    pub fn id(&self) -> (r: String)
        ensures
            r@ == self@.id,
    {
        self.id.clone()
    }

    /// The length of its vectors.
    pub fn dim(&self) -> (r: usize)
        ensures
            r == self@.dim,
    {
        self.dim
    }

    /// The vector of a token.
    pub fn row(&self, token: &[char]) -> (r: Option<&Vec<F32Bits>>)
        ensures
            match r {
                Some(v) => self@.table.contains_key(token@) && v@ == self@.table[token@],
                None => !self@.table.contains_key(token@),
            },
    {
        proof {
            use_type_invariant(self);
            lemma_rows_map(rows_of(self.tokens@, self.vectors@));
        }
        let ghost rows = rows_of(self.tokens@, self.vectors@);
        match sorted::find_text(&self.tokens, &self.order, token) {
            Some(k) => {
                let at: usize = self.order[k];
                assert(rows[at as int].0 == token@);
                assert forall|j: int| at < j < rows.len() implies (#[trigger] rows[j]).0
                    != rows[at as int].0 by {
                    assert(rows[j].0 == self.tokens@[j]@);
                    assert(self.order@[k as int] == at);
                }
                Some(&self.vectors[at])
            },
            None => {
                proof {
                    if exists|i: int| 0 <= i < rows.len() && (#[trigger] rows[i]).0 == token@ {
                        let i = choose|i: int| 0 <= i < rows.len() && (#[trigger] rows[i]).0 == token@;
                        assert(self.tokens@[i]@ == token@);
                        assert(sorted::texts_at(self.tokens@, self.order@).contains(token@));
                    }
                }
                None
            },
        }
    }

    /// The rows of the known tokens of a text, in order.
    pub fn known_rows(&self, s: &str) -> (r: Vec<Vec<F32Bits>>)
        ensures
            crate::store::vector_views(r@) == known_rows_of(self@.table, text::tokens(s@)),
    {
        let tokens = text::tokenize(&text::chars_of(s));
        let ghost ts = text::views(tokens@);
        let mut out: Vec<Vec<F32Bits>> = Vec::new();
        let n: usize = tokens.len();
        assert(ts.take(0) =~= Seq::empty());
        assert(crate::store::vector_views(out@) =~= Seq::empty());
        for i in 0..n
            invariant
                n == tokens@.len(),
                ts == text::views(tokens@),
                crate::store::vector_views(out@) == known_rows_of(self@.table, ts.take(i as int)),
        {
            assert(ts.take(i + 1).drop_last() =~= ts.take(i as int));
            assert(ts.take(i + 1).last() == tokens@[i as int]@);
            match self.row(&tokens[i]) {
                Some(v) => {
                    let copy = crate::store::copy_vector(v);
                    let ghost before = out@;
                    out.push(copy);
                    assert(crate::store::vector_views(out@) =~= crate::store::vector_views(
                        before,
                    ).push(v@));
                },
                None => {},
            }
        }
        assert(ts.take(n as int) =~= ts);
        out
    }
}

// ---------------------------------------------------------------------------
// Loading a table
// ---------------------------------------------------------------------------

/// What a loader has taken in: the dimension once it is known, the rows, and all the bytes.
#[verifier::ext_equal]
pub struct LoaderV {
    pub dim: usize,
    pub rows: Seq<(Seq<char>, Seq<F32Bits>)>,
    pub bytes: Seq<u8>,
}

/// A row of a vectors file: its token and its fields; nothing on a blank line.
pub open spec fn row_fields(line: Seq<char>) -> Option<(Seq<char>, Seq<Seq<char>>)> {
    let words = text::runs(line, CharClass::Space);
    if words.len() == 0 {
        None
    } else {
        Some((words[0], words.drop_first()))
    }
}

/// The numbers of a row, where every field is one.
pub open spec fn row_values(values: Seq<Option<F32Bits>>) -> Option<Seq<F32Bits>>
    decreases values.len(),
{
    if values.len() == 0 {
        Some(Seq::empty())
    } else {
        match (row_values(values.drop_last()), values.last()) {
            (Some(v), Some(x)) => Some(v.push(x)),
            _ => None,
        }
    }
}

/// The loader after a row. A row is passed over where a field is not a number, where it has
/// fewer than two, or where its width is not that of the first row that was taken.
pub open spec fn with_row(l: LoaderV, token: Seq<char>, values: Seq<Option<F32Bits>>) -> LoaderV {
    match row_values(values) {
        Some(v) => if v.len() < 2 || (l.dim != 0 && v.len() != l.dim) {
            l
        } else {
            LoaderV { dim: v.len() as usize, rows: l.rows.push((text::lowered(token), v)), ..l }
        },
        None => l,
    }
}

/// Loads a table of vectors, line by line.
pub struct TableLoader {
    dim: usize,
    tokens: Vec<Vec<char>>,
    vectors: Vec<Vec<F32Bits>>,
    hasher: blake3::Hasher,
}

impl View for TableLoader {
    type V = LoaderV;

    closed spec fn view(&self) -> LoaderV {
        LoaderV {
            dim: self.dim,
            rows: rows_of(self.tokens@, self.vectors@),
            bytes: digest::absorbed(self.hasher),
        }
    }
}

impl TableLoader {
    /// There is a vector for each token, and a dimension once there is any.
    pub closed spec fn wf(self) -> bool {
        self.tokens@.len() == self.vectors@.len() && (self.tokens@.len() != 0 ==> self.dim != 0)
    }

    /// A loader that has taken in nothing.
    pub fn new() -> (r: TableLoader)
        ensures
            r.wf(),
            r@ == (LoaderV { dim: 0, rows: Seq::empty(), bytes: Seq::empty() }),
    {
        let r = TableLoader {
            dim: 0,
            tokens: Vec::new(),
            vectors: Vec::new(),
            hasher: digest::hasher_new(),
        };
        assert(r@.rows =~= Seq::empty());
        assert(r@.bytes =~= Seq::empty());
        r
    }

    /// Takes in a line; gives its token and its fields, unless it is blank.
    pub fn read_line(&mut self, line: &str) -> (r: Option<(String, Vec<String>)>)
        requires
            old(self).wf(),
        ensures
            final(self).wf(),
            final(self)@ == (LoaderV {
                bytes: old(self)@.bytes + vstd::utf8::encode_utf8(line@).push(10u8),
                ..old(self)@
            }),
            row_fields(line@) == (match r {
                Some((t, fields)) => Some((t@, text::string_views(fields@))),
                None => None,
            }),
    {
        digest::hasher_update(&mut self.hasher, line.as_bytes());
        let end: [u8; 1] = [10];
        digest::hasher_update(&mut self.hasher, &end);
        assert(self@.bytes =~= old(self)@.bytes + vstd::utf8::encode_utf8(line@).push(10u8));
        let words = text::split_runs(&text::chars_of(line), CharClass::Space);
        let ghost ws = text::views(words@);
        let n: usize = words.len();
        if n == 0 {
            return None;
        }
        let mut fields: Vec<String> = Vec::new();
        for i in 1..n
            invariant
                n == words@.len(),
                1 <= i,
                fields@.len() == i - 1,
                forall|j: int| 0 <= j < i - 1 ==> (#[trigger] fields@[j])@ == words@[j + 1]@,
        {
            fields.push(text::string_of(&words[i]));
        }
        assert(text::string_views(fields@) =~= ws.drop_first());
        assert(ws[0] == words@[0]@);
        Some((text::string_of(&words[0]), fields))
    }

    /// Takes in a row: its token, and the number in each field where it is one.
    pub fn add_row(&mut self, token: &str, values: &Vec<Option<F32Bits>>)
        requires
            old(self).wf(),
        ensures
            final(self).wf(),
            final(self)@ == with_row(old(self)@, token@, values@),
    {
        let mut vals: Vec<F32Bits> = Vec::new();
        let n: usize = values.len();
        assert(values@.take(0) =~= Seq::empty());
        for i in 0..n
            invariant
                n == values@.len(),
                row_values(values@.take(i as int)) == Some(vals@),
                vals@.len() == i,
                self == old(self),
                old(self).wf(),
        {
            assert(values@.take(i + 1).drop_last() =~= values@.take(i as int));
            match values[i] {
                Some(x) => {
                    vals.push(x);
                },
                None => {
                    proof {
                        lemma_values_prefix(values@, i + 1);
                    }
                    return;
                },
            }
        }
        assert(values@.take(n as int) =~= values@);
        if n < 2 || (self.dim != 0 && n != self.dim) {
            return;
        }
        self.dim = n;
        let ghost was = rows_of(self.tokens@, self.vectors@);
        self.tokens.push(text::lower(&text::chars_of(token)));
        self.vectors.push(vals);
        assert(rows_of(self.tokens@, self.vectors@) =~= was.push((text::lowered(token@), vals@)));
    }

    /// The embedder of the rows that were taken; nothing where there is none. It is named after
    /// the file's stem, its dimension and the digest of its content.
    pub fn finish(self, stem: Option<&str>) -> (r: Option<StaticEmbedder>)
        requires
            self.wf(),
        ensures
            match r {
                Some(e) => self@.rows.len() != 0 && e@ == (StaticV {
                    id: "static:"@ + (match stem {
                        Some(s) => s@,
                        None => "model"@,
                    }).push(':') + decimal::decimal(self@.dim as nat).push(':') + digest::hex(
                        digest::blake3_digest(self@.bytes)@,
                    ),
                    dim: self@.dim,
                    table: rows_map(self@.rows),
                }),
                None => self@.rows.len() == 0,
            },
    {
        if self.dim == 0 || self.tokens.len() == 0 {
            return None;
        }
        let mut id = text::chars_of("static:");
        match stem {
            Some(s) => text::append_str(&mut id, s),
            None => text::append_str(&mut id, "model"),
        }
        id.push(':');
        text::append(&mut id, &decimal::to_decimal(self.dim as u128));
        id.push(':');
        text::append(&mut id, &digest::to_hex(&digest::hasher_finalize(&self.hasher)));
        assert(id@ =~= "static:"@ + (match stem {
            Some(s) => s@,
            None => "model"@,
        }).push(':') + decimal::decimal(self@.dim as nat).push(':') + digest::hex(
            digest::blake3_digest(self@.bytes)@,
        ));
        let e = StaticEmbedder::build(text::string_of(&id), self.dim, self.tokens, self.vectors);
        Some(e)
    }
}

proof fn lemma_values_prefix(values: Seq<Option<F32Bits>>, n: int)
    requires
        0 <= n <= values.len(),
        row_values(values.take(n)) is None,
    ensures
        row_values(values) is None,
    decreases values.len() - n,
{
    if n < values.len() {
        assert(values.take(n + 1).drop_last() =~= values.take(n));
        lemma_values_prefix(values, n + 1);
    } else {
        assert(values.take(n) =~= values);
    }
}

// ---------------------------------------------------------------------------
// Choosing an embedder
// ---------------------------------------------------------------------------

/// Which embedder to use.
pub enum Backend {
    Hash,
    /// A table of vectors, in a file.
    Static(String),
}

/// Why there is no embedder.
#[derive(Debug, Clone, Copy, PartialEq, Eq, Structural)]
pub enum BackendError {
    /// The static embedder needs a file.
    NeedsModel,
    /// The neural embedder is not part of this build.
    NeuralNotBuilt,
    /// No embedder has this name.
    Unknown,
}

/// Chooses the embedder by name; the hashed one where there is no name.
pub fn select_backend(name: Option<&str>, model: Option<&str>) -> (r: Result<Backend, BackendError>)
    ensures
        ({
            let n = match name {
                Some(x) => x@,
                None => "hash"@,
            };
            if n == "hash"@ {
                r matches Ok(Backend::Hash)
            } else if n == "static"@ || n == "localmodel"@ {
                match model {
                    Some(m) => r matches Ok(Backend::Static(p)) && p@ == m@,
                    None => r matches Err(BackendError::NeedsModel),
                }
            } else if n == "neural"@ {
                r matches Err(BackendError::NeuralNotBuilt)
            } else {
                r matches Err(BackendError::Unknown)
            }
        }),
{
    let n: &str = match name {
        Some(x) => x,
        None => "hash",
    };
    if text::same_str(n, "hash") {
        Ok(Backend::Hash)
    } else if text::same_str(n, "static") || text::same_str(n, "localmodel") {
        match model {
            Some(m) => Ok(Backend::Static(model::owned(m))),
            None => Err(BackendError::NeedsModel),
        }
    } else if text::same_str(n, "neural") {
        Err(BackendError::NeuralNotBuilt)
    } else {
        Err(BackendError::Unknown)
    }
}

// ---------------------------------------------------------------------------
// Laws
// ---------------------------------------------------------------------------

/// A token counts into the bucket that the first four bytes of its digest name, and up where
/// the fifth is even.
pub proof fn digests_name_buckets(t: Seq<char>)
    ensures
        bucket(t) == vstd::bytes::spec_u32_from_le_bytes(
            digest::blake3_digest(vstd::utf8::encode_utf8(t))@.subrange(0, 4),
        ) as int % 256,
        0 <= bucket(t) < 256,
        counts_up(t) <==> digest::blake3_digest(vstd::utf8::encode_utf8(t))@[4] % 2 == 0,
{
}

/// The count of a bucket is how many tokens count up in it, less how many count down: every
/// token counts, as often as it occurs.
pub proof fn every_token_counts(tokens: Seq<Seq<char>>, b: int)
    requires
        0 <= b < 256,
        tokens.len() <= 16_777_216,
    ensures
        bag(tokens).len() == 256,
        bag(tokens)[b] == tokens.filter(|t: Seq<char>| bucket(t) == b && counts_up(t)).len()
            - tokens.filter(|t: Seq<char>| bucket(t) == b && !counts_up(t)).len(),
        -tokens.len() <= bag(tokens)[b] <= tokens.len(),
    decreases tokens.len(),
{
    reveal(Seq::filter);
    if tokens.len() != 0 {
        every_token_counts(tokens.drop_last(), b);
    }
}

/// A table knows what its last row for a token says.
pub proof fn the_last_row_counts(rows: Seq<(Seq<char>, Seq<F32Bits>)>, i: int)
    requires
        0 <= i < rows.len(),
        forall|j: int| i < j < rows.len() ==> (#[trigger] rows[j]).0 != rows[i].0,
    ensures
        rows_map(rows).contains_key(rows[i].0),
        rows_map(rows)[rows[i].0] == rows[i].1,
    decreases rows.len(),
{
    let init = rows.drop_last();
    if i < init.len() {
        assert(init[i] == rows[i]);
        assert forall|j: int| i < j < init.len() implies (#[trigger] init[j]).0 != init[i].0 by {
            assert(init[j] == rows[j]);
        }
        the_last_row_counts(init, i);
        assert(rows[rows.len() - 1] == rows.last());
    }
}

/// Every token that a table knows gives its row, in order and as often as it occurs.
pub proof fn known_tokens_give_their_rows(
    table: Map<Seq<char>, Seq<F32Bits>>,
    tokens: Seq<Seq<char>>,
)
    ensures
        known_rows_of(table, tokens) == tokens.filter_map(
            |t: Seq<char>|
                if table.contains_key(t) {
                    Some(table[t])
                } else {
                    None
                },
        ),
    decreases tokens.len(),
{
    if tokens.len() != 0 {
        known_tokens_give_their_rows(table, tokens.drop_last());
    }
}

proof fn lemma_row_values(values: Seq<Option<F32Bits>>, v: Seq<F32Bits>)
    requires
        values.len() == v.len(),
        forall|i: int| 0 <= i < values.len() ==> #[trigger] values[i] == Some(v[i]),
    ensures
        row_values(values) == Some(v),
    decreases values.len(),
{
    if values.len() == 0 {
        assert(v =~= Seq::empty());
    } else {
        assert forall|i: int| 0 <= i < values.drop_last().len() implies #[trigger] values.drop_last()[i]
            == Some(v.drop_last()[i]) by {
            assert(values[i] == Some(v[i]));
        }
        lemma_row_values(values.drop_last(), v.drop_last());
        assert(values[values.len() - 1] == Some(v[v.len() - 1]));
        assert(v.drop_last().push(v.last()) =~= v);
    }
}

/// A row of at least two numbers is taken in, its token in lower case, where it is as wide as
/// the rows before it; a row with a field that is not a number is not.
pub proof fn rows_are_taken_in(
    l: LoaderV,
    token: Seq<char>,
    values: Seq<Option<F32Bits>>,
    v: Seq<F32Bits>,
    bad: int,
)
    ensures
        values.len() == v.len() >= 2 && (forall|i: int|
            0 <= i < values.len() ==> #[trigger] values[i] == Some(v[i])) && v.len() <= usize::MAX
            && (l.dim == 0 || l.dim == v.len()) ==> with_row(l, token, values).rows == l.rows + seq![
            (text::lowered(token), v),
        ] && with_row(l, token, values).dim == v.len(),
        values.len() == v.len() && (forall|i: int|
            0 <= i < values.len() ==> #[trigger] values[i] == Some(v[i])) && (v.len() < 2 || (l.dim
            != 0 && l.dim != v.len())) ==> with_row(l, token, values) == l,
        0 <= bad < values.len() && values[bad] is None ==> with_row(l, token, values) == l,
        with_row(l, token, values).bytes == l.bytes,
{
    if values.len() == v.len() && (forall|i: int|
        0 <= i < values.len() ==> #[trigger] values[i] == Some(v[i])) {
        lemma_row_values(values, v);
        assert(l.rows.push((text::lowered(token), v)) =~= l.rows + seq![(text::lowered(token), v)]);
    }
    if 0 <= bad < values.len() && values[bad] is None {
        assert(values.take(bad + 1).last() == values[bad]);
        lemma_values_prefix(values, bad + 1);
    }
}

/// A row of a table is a token and its fields, with white space between them.
pub proof fn rows_are_words(line: Seq<char>)
    ensures
        text::runs(line, CharClass::Space).len() == 0 ==> row_fields(line) is None,
        text::runs(line, CharClass::Space).len() != 0 ==> row_fields(line) is Some && seq![
            (row_fields(line)->0).0,
        ] + (row_fields(line)->0).1 == text::runs(line, CharClass::Space),
{
    let words = text::runs(line, CharClass::Space);
    if words.len() != 0 {
        assert(seq![words[0]] + words.drop_first() =~= words);
    }
}

} // verus!
