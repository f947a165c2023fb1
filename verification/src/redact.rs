//! Secret redaction.
//!
//! Runs before anything is stored, embedded or hashed. Each match of a rule becomes a token
//! `<redacted:kind:hash8>` that depends on the matched text alone, so equal secrets stay
//! recognisable as equal.

use vstd::prelude::*;
use vstd::slice::slice_subrange;
use vstd::string::*;

use crate::digest;
use crate::secrets;
use crate::secrets::{Cut, Secret};
use crate::text;

verus! {

/// The number of rules.
pub const RULES: usize = 9;

/// The rules in the order in which they run: the kind of secret and its expression.
pub open spec fn rule_at(i: int) -> (Seq<char>, Secret) {
    if i == 0 {
        ("anthropic_key"@, Secret::AnthropicKey)
    } else if i == 1 {
        ("openai_key"@, Secret::OpenAiKey)
    } else if i == 2 {
        ("aws_access_key"@, Secret::AwsAccessKey)
    } else if i == 3 {
        ("slack_token"@, Secret::SlackToken)
    } else if i == 4 {
        ("github_token"@, Secret::GithubToken)
    } else if i == 5 {
        ("google_key"@, Secret::GoogleKey)
    } else if i == 6 {
        ("private_key"@, Secret::PrivateKey)
    } else if i == 7 {
        ("bearer"@, Secret::Bearer)
    } else {
        ("env_assignment"@, Secret::EnvAssignment)
    }
}

fn rule(i: usize) -> (r: (&'static str, Secret))
    ensures
        (r.0@, r.1) == rule_at(i as int),
{
    match i {
        0 => ("anthropic_key", Secret::AnthropicKey),
        1 => ("openai_key", Secret::OpenAiKey),
        2 => ("aws_access_key", Secret::AwsAccessKey),
        3 => ("slack_token", Secret::SlackToken),
        4 => ("github_token", Secret::GithubToken),
        5 => ("google_key", Secret::GoogleKey),
        6 => ("private_key", Secret::PrivateKey),
        7 => ("bearer", Secret::Bearer),
        _ => ("env_assignment", Secret::EnvAssignment),
    }
}

/// The text between two byte offsets.
pub open spec fn byte_slice(s: Seq<char>, from: int, to: int) -> Seq<char> {
    vstd::utf8::decode_utf8(vstd::utf8::encode_utf8(s).subrange(from, to))
}

/// What a secret is replaced by: its kind and the first four bytes of its digest.
pub open spec fn token(kind: Seq<char>, secret: Seq<char>) -> Seq<char> {
    "<redacted:"@ + kind + seq![':'] + digest::hex(
        digest::blake3_digest(vstd::utf8::encode_utf8(secret))@.subrange(0, 4),
    ) + seq!['>']
}

/// The text from a byte offset on, with every span replaced by its token.
pub open spec fn replaced_from(s: Seq<char>, from: int, spans: Seq<(usize, usize)>, kind: Seq<char>) -> Seq<
    char,
>
    decreases spans.len(),
{
    if spans.len() == 0 {
        byte_slice(s, from, vstd::utf8::encode_utf8(s).len() as int)
    } else {
        byte_slice(s, from, spans[0].0 as int) + token(
            kind,
            byte_slice(s, spans[0].0 as int, spans[0].1 as int),
        ) + replaced_from(s, spans[0].1 as int, spans.drop_first(), kind)
    }
}

/// The text after one rule.
pub open spec fn after_rule(s: Seq<char>, i: int) -> Seq<char> {
    let (kind, secret) = rule_at(i);
    replaced_from(s, 0, secrets::regex_spans(secret.text(), s), kind)
}

/// The text after the first `n` rules.
pub open spec fn after_rules(s: Seq<char>, n: nat) -> Seq<char>
    decreases n,
{
    if n == 0 {
        s
    } else {
        after_rule(after_rules(s, (n - 1) as nat), n - 1)
    }
}

/// The redacted text.
pub open spec fn redacted(s: Seq<char>) -> Seq<char> {
    after_rules(s, RULES as nat)
}

/// Whether some rule matches.
pub open spec fn has_secret(s: Seq<char>) -> bool {
    exists|i: int|
        0 <= i < RULES && secrets::found((#[trigger] rule_at(i)).1, s)
}

fn token_of(kind: &str, secret: &str) -> (r: Vec<char>)
    ensures
        r@ == token(kind@, secret@),
{
    let d = digest::blake3_hash(secret.as_bytes());
    let hex = digest::to_hex(slice_subrange(&d, 0, 4));
    let mut out = text::chars_of("<redacted:");
    text::append_str(&mut out, kind);
    out.push(':');
    text::append(&mut out, &hex);
    out.push('>');
    assert(out@ =~= token(kind@, secret@));
    out
}

proof fn lemma_boundary_in_rest(bytes: Seq<u8>, at: int, next: int)
    requires
        vstd::utf8::valid_utf8(bytes),
        0 <= at <= next <= bytes.len(),
        vstd::utf8::is_char_boundary(bytes, at),
        vstd::utf8::is_char_boundary(bytes, next),
    ensures
        vstd::utf8::valid_utf8(bytes.skip(at)),
        vstd::utf8::is_char_boundary(bytes.skip(at), next - at),
{
    let rest = bytes.skip(at);
    assert(rest =~= bytes.subrange(at, bytes.len() as int));
    vstd::utf8::valid_utf8_split(bytes, at);
    if next < bytes.len() {
        vstd::utf8::is_char_boundary_iff_not_is_continuation_byte(bytes, next);
        vstd::utf8::is_char_boundary_iff_not_is_continuation_byte(rest, next - at);
        assert(rest[next - at] == bytes[next]);
    } else {
        vstd::utf8::is_char_boundary_start_end_of_seq(rest);
    }
}

/// Replaces spans of a text by tokens of a kind.
pub fn replace(s: &str, spans: &Vec<(usize, usize)>, kind: &str) -> (r: String)
    requires
        secrets::well_placed(spans@, s@),
    ensures
        r@ == replaced_from(s@, 0, spans@, kind@),
{
    let ghost bytes = vstd::utf8::encode_utf8(s@);
    let ghost whole = replaced_from(s@, 0, spans@, kind@);
    let mut out: Vec<char> = Vec::new();
    let mut rest: &str = s;
    let mut at: usize = 0;
    let n: usize = spans.len();
    proof {
        vstd::utf8::encode_utf8_valid_utf8(s@);
        vstd::utf8::is_char_boundary_start_end_of_seq(bytes);
        assert(bytes.skip(0) =~= bytes);
        assert(spans@.skip(0) =~= spans@);
    }
    for i in 0..n
        invariant
            n == spans@.len(),
            bytes == vstd::utf8::encode_utf8(s@),
            vstd::utf8::valid_utf8(bytes),
            secrets::well_placed(spans@, s@),
            at <= bytes.len(),
            vstd::utf8::is_char_boundary(bytes, at as int),
            rest.spec_bytes() == bytes.skip(at as int),
            forall|j: int| i <= j < n ==> at <= (#[trigger] spans@[j]).0,
            whole == out@ + replaced_from(s@, at as int, spans@.skip(i as int), kind@),
    {
        let (a, b): (usize, usize) = spans[i];
        assert(spans@[i as int] == (a, b));
        proof {
            lemma_boundary_in_rest(bytes, at as int, a as int);
        }
        let (gap, tail) = rest.split_at(a - at);
        proof {
            assert(gap.spec_bytes() =~= bytes.subrange(at as int, a as int));
            vstd::utf8::encode_utf8_decode_utf8(gap@);
            assert(gap@ == byte_slice(s@, at as int, a as int));
            assert(tail.spec_bytes() =~= bytes.skip(a as int));
            lemma_boundary_in_rest(bytes, a as int, b as int);
        }
        let (secret, after) = tail.split_at(b - a);
        proof {
            assert(secret.spec_bytes() =~= bytes.subrange(a as int, b as int));
            vstd::utf8::encode_utf8_decode_utf8(secret@);
            assert(secret@ == byte_slice(s@, a as int, b as int));
            assert(after.spec_bytes() =~= bytes.skip(b as int));
        }
        text::append_str(&mut out, gap);
        let t = token_of(kind, secret);
        text::append(&mut out, &t);
        assert(spans@.skip(i as int).drop_first() =~= spans@.skip(i + 1));
        assert(whole =~= out@ + replaced_from(s@, b as int, spans@.skip(i + 1), kind@));
        rest = after;
        at = b;
    }
    proof {
        assert(spans@.skip(n as int).len() == 0);
        assert(rest.spec_bytes() =~= bytes.subrange(at as int, bytes.len() as int));
        vstd::utf8::encode_utf8_decode_utf8(rest@);
    }
    text::append_str(&mut out, rest);
    text::string_of(&out)
}

// ---------------------------------------------------------------------------
// What is left
// ---------------------------------------------------------------------------

/// Whether none of the first `n` rules matches.
pub open spec fn clean_of(s: Seq<char>, n: int) -> bool {
    forall|j: int| 0 <= j < n ==> !secrets::found((#[trigger] rule_at(j)).1, s)
}

/// The text from a place on, with what stands at the places replaced by tokens.
pub open spec fn spliced(s: Seq<char>, from: int, places: Seq<(int, int)>, kind: Seq<char>) -> Seq<
    char,
>
    decreases places.len(),
{
    if places.len() == 0 {
        s.skip(from)
    } else {
        s.subrange(from, places[0].0) + token(kind, s.subrange(places[0].0, places[0].1)) + spliced(
            s,
            places[0].1,
            places.drop_first(),
            kind,
        )
    }
}

/// Places in a text from a point on, in order and without overlap.
pub open spec fn laid_out(s: Seq<char>, from: int, places: Seq<(int, int)>) -> bool {
    &&& 0 <= from <= s.len()
    &&& forall|k: int|
        0 <= k < places.len() ==> from <= (#[trigger] places[k]).0 <= places[k].1 <= s.len()
    &&& forall|k: int, l: int|
        0 <= k < l < places.len() ==> (#[trigger] places[k]).1 <= (#[trigger] places[l]).0
}

proof fn lemma_rest_laid_out(s: Seq<char>, from: int, places: Seq<(int, int)>)
    requires
        laid_out(s, from, places),
        places.len() != 0,
    ensures
        laid_out(s, places[0].1, places.drop_first()),
{
    let rest = places.drop_first();
    assert forall|k: int| 0 <= k < rest.len() implies places[0].1 <= (#[trigger] rest[k]).0
        <= rest[k].1 <= s.len() by {
        assert(rest[k] == places[k + 1]);
    }
    assert forall|k: int, l: int| 0 <= k < l < rest.len() implies (#[trigger] rest[k]).1 <= (
    #[trigger] rest[l]).0 by {
        assert(rest[k] == places[k + 1]);
        assert(rest[l] == places[l + 1]);
    }
}

proof fn lemma_encode_join(x: Seq<char>, y: Seq<char>)
    ensures
        vstd::utf8::encode_utf8(x + y) == vstd::utf8::encode_utf8(x) + vstd::utf8::encode_utf8(y),
    decreases x.len(),
{
    if x.len() == 0 {
        assert(x + y =~= y);
        assert(vstd::utf8::encode_utf8(x) + vstd::utf8::encode_utf8(y)
            =~= vstd::utf8::encode_utf8(y));
    } else {
        lemma_encode_join(x.drop_first(), y);
        assert((x + y).drop_first() =~= x.drop_first() + y);
        assert(vstd::utf8::encode_utf8(x + y) =~= vstd::utf8::encode_utf8(x)
            + vstd::utf8::encode_utf8(y));
    }
}

proof fn lemma_slice(s: Seq<char>, a: int, b: int)
    requires
        0 <= a <= b <= s.len(),
    ensures
        byte_slice(s, secrets::byte_of(s, a), secrets::byte_of(s, b)) == s.subrange(a, b),
        secrets::byte_of(s, s.len() as int) == vstd::utf8::encode_utf8(s).len(),
{
    let (x, y, z) = (s.take(a), s.subrange(a, b), s.skip(b));
    lemma_encode_join(x, y);
    lemma_encode_join(x + y, z);
    assert(x + y =~= s.take(b));
    assert(x + y + z =~= s);
    assert(s.take(s.len() as int) =~= s);
    let bytes = vstd::utf8::encode_utf8(s);
    assert(bytes.subrange(secrets::byte_of(s, a), secrets::byte_of(s, b))
        =~= vstd::utf8::encode_utf8(y));
    vstd::utf8::encode_utf8_decode_utf8(y);
}

proof fn lemma_spliced(
    s: Seq<char>,
    from: int,
    places: Seq<(int, int)>,
    spans: Seq<(usize, usize)>,
    kind: Seq<char>,
)
    requires
        laid_out(s, from, places),
        secrets::placed(s, places, spans),
    ensures
        replaced_from(s, secrets::byte_of(s, from), spans, kind) == spliced(s, from, places, kind),
    decreases places.len(),
{
    if places.len() == 0 {
        lemma_slice(s, from, s.len() as int);
        assert(s.subrange(from, s.len() as int) =~= s.skip(from));
    } else {
        let (p, q) = (places.drop_first(), spans.drop_first());
        lemma_rest_laid_out(s, from, places);
        assert(spans[0].0 == secrets::byte_of(s, places[0].0));
        assert(spans[0].1 == secrets::byte_of(s, places[0].1));
        lemma_slice(s, from, places[0].0);
        lemma_slice(s, places[0].0, places[0].1);
        assert forall|k: int| 0 <= k < q.len() implies (#[trigger] q[k]).0 == secrets::byte_of(
            s,
            p[k].0,
        ) && q[k].1 == secrets::byte_of(s, p[k].1) by {
            assert(q[k] == spans[k + 1]);
            assert(p[k] == places[k + 1]);
        }
        lemma_spliced(s, places[0].1, p, q, kind);
    }
}

/// Whether a text stands nowhere inside another.
pub open spec fn sealed(t: Seq<char>, w: Seq<char>) -> bool {
    forall|z: int| 0 <= z && z + w.len() <= t.len() ==> #[trigger] t.subrange(z, z + w.len()) != w
}

/// Whether no token of a kind holds a text.
pub open spec fn kept_out(kind: Seq<char>, w: Seq<char>) -> bool {
    forall|secret: Seq<char>| sealed(#[trigger] token(kind, secret), w)
}

/// Whether a text is free of the signs that open and close a token.
pub open spec fn unmarked(w: Seq<char>) -> bool {
    w.len() != 0 && forall|i: int| 0 <= i < w.len() ==> #[trigger] w[i] != '<' && w[i] != '>'
}

proof fn lemma_hex_len(bytes: Seq<u8>)
    ensures
        digest::hex(bytes).len() == 2 * bytes.len(),
    decreases bytes.len(),
{
    if bytes.len() != 0 {
        lemma_hex_len(bytes.drop_last());
    }
}

proof fn lemma_token(kind: Seq<char>, secret: Seq<char>)
    ensures
        ({
            let t = token(kind, secret);
            &&& t.len() == kind.len() + 20
            &&& t[0] == '<'
            &&& t[9] == ':'
            &&& t[kind.len() as int + 10] == ':'
            &&& t[kind.len() as int + 19] == '>'
        }),
{
    reveal_strlit("<redacted:");
    let head = digest::blake3_digest(vstd::utf8::encode_utf8(secret))@.subrange(0, 4);
    lemma_hex_len(head);
}

/// Where in the text a place of the spliced text comes from, for a place outside the tokens.
pub open spec fn source(
    s: Seq<char>,
    from: int,
    places: Seq<(int, int)>,
    kind: Seq<char>,
    x: int,
) -> int
    decreases places.len(),
{
    if places.len() == 0 || x < places[0].0 - from {
        from + x
    } else {
        source(
            s,
            places[0].1,
            places.drop_first(),
            kind,
            x - (places[0].0 - from) - token(kind, s.subrange(places[0].0, places[0].1)).len(),
        )
    }
}

/// A text without token signs that no token holds comes out of one gap between the places.
proof fn lemma_run(
    s: Seq<char>,
    from: int,
    places: Seq<(int, int)>,
    kind: Seq<char>,
    x: int,
    w: Seq<char>,
)
    requires
        laid_out(s, from, places),
        0 <= x && x + w.len() <= spliced(s, from, places, kind).len(),
        spliced(s, from, places, kind).subrange(x, x + w.len()) == w,
        unmarked(w),
        kept_out(kind, w),
    ensures
        ({
            let u = source(s, from, places, kind, x);
            let v = spliced(s, from, places, kind);
            &&& from <= u && u + w.len() <= s.len()
            &&& s.subrange(u, u + w.len()) == w
            &&& forall|k: int|
                0 <= k < places.len() ==> u + w.len() <= (#[trigger] places[k]).0 || places[k].1
                    <= u
            &&& x == 0 ==> u == from
            &&& x > 0 && v[x - 1] == '\n' ==> u > from && s[u - 1] == '\n'
        }),
    decreases places.len(),
{
    let v = spliced(s, from, places, kind);
    let n = w.len() as int;
    assert forall|i: int| 0 <= i < n implies v[x + i] == w[i] by {
        assert(v.subrange(x, x + n)[i] == v[x + i]);
    }
    if places.len() == 0 {
        assert(s.subrange(from + x, from + x + n) =~= w);
    } else {
        let (a, b) = places[0];
        let rest = places.drop_first();
        let g = s.subrange(from, a);
        let t = token(kind, s.subrange(a, b));
        let r = spliced(s, b, rest, kind);
        lemma_token(kind, s.subrange(a, b));
        lemma_rest_laid_out(s, from, places);
        assert(v == g + t + r);
        assert(v[g.len() as int] == '<');
        assert(v[g.len() + t.len() - 1] == '>');
        if x < g.len() {
            if x + n > g.len() {
                assert(w[g.len() - x] == '<');
            }
            assert(s.subrange(from + x, from + x + n) =~= w);
        } else if x < g.len() + t.len() {
            if x + n <= g.len() + t.len() {
                let z = x - g.len();
                assert(t.subrange(z, z + n) =~= w);
                assert(sealed(t, w));
            } else {
                assert(w[g.len() + t.len() - 1 - x] == '>');
            }
            assert(false);
        } else {
            let y = x - g.len() - t.len();
            assert(r.subrange(y, y + n) =~= w);
            lemma_run(s, b, rest, kind, y, w);
            let u = source(s, b, rest, kind, y);
            assert forall|k: int| 0 <= k < places.len() implies u + n <= (#[trigger] places[k]).0
                || places[k].1 <= u by {
                if k > 0 {
                    assert(rest[k - 1] == places[k]);
                }
            }
            if v[x - 1] == '\n' {
                assert(y > 0);
                assert(r[y - 1] == v[x - 1]);
            }
        }
    }
}

/// Such texts keep their order.
proof fn lemma_runs_in_order(
    s: Seq<char>,
    from: int,
    places: Seq<(int, int)>,
    kind: Seq<char>,
    x: int,
    w: Seq<char>,
    x2: int,
    w2: Seq<char>,
)
    requires
        laid_out(s, from, places),
        0 <= x && x + w.len() <= x2 && x2 + w2.len() <= spliced(s, from, places, kind).len(),
        spliced(s, from, places, kind).subrange(x, x + w.len()) == w,
        spliced(s, from, places, kind).subrange(x2, x2 + w2.len()) == w2,
        unmarked(w),
        unmarked(w2),
        kept_out(kind, w),
        kept_out(kind, w2),
    ensures
        source(s, from, places, kind, x) + w.len() <= source(s, from, places, kind, x2),
    decreases places.len(),
{
    lemma_run(s, from, places, kind, x, w);
    lemma_run(s, from, places, kind, x2, w2);
    if places.len() != 0 {
        let (a, b) = places[0];
        let rest = places.drop_first();
        let t = token(kind, s.subrange(a, b));
        let v = spliced(s, from, places, kind);
        let r = spliced(s, b, rest, kind);
        let skip = a - from + t.len();
        lemma_token(kind, s.subrange(a, b));
        lemma_rest_laid_out(s, from, places);
        assert(v == s.subrange(from, a) + t + r);
        assert(v.subrange(a - from, skip) =~= t);
        if x2 >= a - from {
            if x2 < skip {
                lemma_not_in_token(v, a - from, t, x2, w2);
            }
            assert(r.subrange(x2 - skip, x2 - skip + w2.len()) =~= w2);
            if x >= a - from {
                if x < skip {
                    lemma_not_in_token(v, a - from, t, x, w);
                }
                assert(r.subrange(x - skip, x - skip + w.len()) =~= w);
                lemma_runs_in_order(s, b, rest, kind, x - skip, w, x2 - skip, w2);
            } else {
                lemma_run(s, b, rest, kind, x2 - skip, w2);
            }
        }
    }
}

/// Such a text does not start inside a token.
proof fn lemma_not_in_token(v: Seq<char>, at: int, t: Seq<char>, x: int, w: Seq<char>)
    requires
        0 <= at && at + t.len() <= v.len(),
        v.subrange(at, at + t.len()) == t,
        t.len() != 0,
        t.last() == '>',
        0 <= x && x + w.len() <= v.len(),
        v.subrange(x, x + w.len()) == w,
        unmarked(w),
        sealed(t, w),
    ensures
        !(at <= x < at + t.len()),
{
    if at <= x < at + t.len() {
        if x + w.len() <= at + t.len() {
            let z = x - at;
            assert forall|i: int| 0 <= i < w.len() implies t[z + i] == w[i] by {
                assert(v.subrange(at, at + t.len())[z + i] == v[x + i]);
                assert(v.subrange(x, x + w.len())[i] == v[x + i]);
            }
            assert(t.subrange(z, z + w.len()) =~= w);
        } else {
            let i = at + t.len() - 1 - x;
            assert(v.subrange(at, at + t.len())[t.len() - 1] == v[x + i]);
            assert(v.subrange(x, x + w.len())[i] == v[x + i]);
            assert(w[i] == '>');
        }
    }
}

/// Whether a text is free of every sign that a token is marked with.
pub open spec fn plain(w: Seq<char>) -> bool {
    forall|i: int| 0 <= i < w.len() ==> #[trigger] w[i] != '<' && w[i] != '>' && w[i] != ':'
}

proof fn lemma_plain_kept_out(kind: Seq<char>, w: Seq<char>)
    requires
        kind.len() <= 14,
        w.len() >= 15,
        plain(w),
    ensures
        kept_out(kind, w),
{
    assert forall|secret: Seq<char>| sealed(#[trigger] token(kind, secret), w) by {
        let t = token(kind, secret);
        lemma_token(kind, secret);
        assert forall|z: int| 0 <= z && z + w.len() <= t.len() implies #[trigger] t.subrange(
            z,
            z + w.len(),
        ) != w by {
            let sub = t.subrange(z, z + w.len());
            if z == 0 {
                assert(sub[0] == '<');
            } else if z <= 9 {
                assert(sub[9 - z] == ':');
            } else {
                assert(sub[kind.len() + 10 - z] == ':');
            }
        }
    }
}

proof fn lemma_kinds(i: int)
    ensures
        rule_at(i).0.len() <= 14,
{
    reveal_strlit("anthropic_key");
    reveal_strlit("openai_key");
    reveal_strlit("aws_access_key");
    reveal_strlit("slack_token");
    reveal_strlit("github_token");
    reveal_strlit("google_key");
    reveal_strlit("private_key");
    reveal_strlit("bearer");
    reveal_strlit("env_assignment");
}

/// Whether a text holds lower-case ASCII letters alone.
pub open spec fn lower_word(w: Seq<char>) -> bool {
    forall|i: int| 0 <= i < w.len() ==> 'a' <= #[trigger] w[i] <= 'z'
}

proof fn lemma_folds_plain(t: Seq<char>, word: Seq<char>)
    requires
        secrets::folds(t, word),
        lower_word(word),
    ensures
        plain(t),
{
    assert forall|i: int| 0 <= i < t.len() implies #[trigger] t[i] != '<' && t[i] != '>' && t[i]
        != ':' by {
        assert(secrets::folds_to(t[i], word[i]));
        assert('a' <= word[i] <= 'z');
    }
}

proof fn lemma_shape_plain(p: Secret, t: Seq<char>)
    requires
        secrets::shaped(p, t),
        p != Secret::PrivateKey,
    ensures
        t.len() >= 15,
        plain(t),
{
    reveal_strlit("sk-ant-");
    reveal_strlit("sk-");
    reveal_strlit("AKIA");
    reveal_strlit("xox");
    reveal_strlit("abpr");
    reveal_strlit("gh");
    reveal_strlit("pousr");
    reveal_strlit("AIza");
    reveal_strlit("bearer");
    let n: int = match p {
        Secret::AnthropicKey => 7,
        Secret::OpenAiKey => 3,
        Secret::AwsAccessKey => 4,
        Secret::SlackToken => 3,
        Secret::GithubToken => 2,
        Secret::GoogleKey => 4,
        _ => 6,
    };
    assert forall|i: int| 0 <= i < t.len() implies #[trigger] t[i] != '<' && t[i] != '>' && t[i]
        != ':' by {
        if i < n {
            assert(t.take(n)[i] == t[i]);
            assert(i == 0 || i == 1 || i == 2 || i == 3 || i == 4 || i == 5 || i == 6);
        }
        if p == Secret::Bearer {
            let at = choose|at: int| #[trigger] secrets::bears(t, at);
            if i < 6 {
                assert(lower_word("bearer"@));
                lemma_folds_plain(t.take(6), "bearer"@);
            } else if i < at {
                assert(text::is_space(t[i]));
            }
        }
    }
}

proof fn lemma_marker_plain(n: int)
    ensures
        secrets::marker("-----BEGIN "@, n).len() >= 15,
        plain(secrets::marker("-----BEGIN "@, n)),
        secrets::marker("-----END "@, n).len() >= 15,
        plain(secrets::marker("-----END "@, n)),
{
    lemma_marker_parts();
    lemma_plain_join("-----BEGIN "@, secrets::key_type(n));
    lemma_plain_join("-----BEGIN "@ + secrets::key_type(n), "PRIVATE KEY-----"@);
    lemma_plain_join("-----END "@, secrets::key_type(n));
    lemma_plain_join("-----END "@ + secrets::key_type(n), "PRIVATE KEY-----"@);
}

proof fn lemma_marker_parts()
    ensures
        plain("-----BEGIN "@),
        plain("-----END "@),
        plain("PRIVATE KEY-----"@) && "PRIVATE KEY-----"@.len() >= 15,
        forall|n: int| plain(#[trigger] secrets::key_type(n)),
{
    reveal_strlit("-----BEGIN ");
    reveal_strlit("-----END ");
    reveal_strlit("PRIVATE KEY-----");
    reveal_strlit("");
    reveal_strlit("RSA ");
    reveal_strlit("EC ");
    reveal_strlit("OPENSSH ");
    reveal_strlit("DSA ");
}

proof fn lemma_plain_join(x: Seq<char>, y: Seq<char>)
    requires
        plain(x),
        plain(y),
    ensures
        plain(x + y),
{
    assert forall|i: int| 0 <= i < (x + y).len() implies #[trigger] (x + y)[i] != '<' && (x + y)[i]
        != '>' && (x + y)[i] != ':' by {
        if i < x.len() {
            assert((x + y)[i] == x[i]);
        } else {
            assert((x + y)[i] == y[i - x.len()]);
        }
    }
}

/// A secret of a shape by itself in the spliced text stands in a gap of the text.
proof fn lemma_shape_from_gap(
    p: Secret,
    s: Seq<char>,
    places: Seq<(int, int)>,
    kind: Seq<char>,
    a: int,
    b: int,
) -> (r: (int, int))
    requires
        laid_out(s, 0, places),
        kind.len() <= 14,
        p != Secret::EnvAssignment,
        p != Secret::PrivateKey,
        secrets::occurs(p, spliced(s, 0, places, kind), a, b),
    ensures
        secrets::occurs(p, s, r.0, r.1),
        forall|k: int|
            0 <= k < places.len() ==> !((#[trigger] places[k]).0 <= r.0 < places[k].1),
{
    let v = spliced(s, 0, places, kind);
    let w = v.subrange(a, b);
    lemma_shape_plain(p, w);
    lemma_plain_kept_out(kind, w);
    lemma_run(s, 0, places, kind, a, w);
    let u = source(s, 0, places, kind, a);
    (u, u + w.len())
}

/// A private key in the spliced text stands in the text, and opens in a gap.
proof fn lemma_key_from_gaps(
    s: Seq<char>,
    places: Seq<(int, int)>,
    kind: Seq<char>,
    a: int,
    b: int,
) -> (r: (int, int))
    requires
        laid_out(s, 0, places),
        kind.len() <= 14,
        secrets::occurs(Secret::PrivateKey, spliced(s, 0, places, kind), a, b),
    ensures
        secrets::occurs(Secret::PrivateKey, s, r.0, r.1),
        forall|k: int|
            0 <= k < places.len() ==> !((#[trigger] places[k]).0 <= r.0 < places[k].1),
{
    let v = spliced(s, 0, places, kind);
    let t = v.subrange(a, b);
    let (m, n) = choose|m: int, n: int|
        0 <= m < 5 && 0 <= n < 5 && #[trigger] secrets::enclosed(t, m, n);
    let (w, w2) = (secrets::marker("-----BEGIN "@, m), secrets::marker("-----END "@, n));
    let x2 = b - w2.len();
    lemma_marker_plain(m);
    lemma_marker_plain(n);
    lemma_plain_kept_out(kind, w);
    lemma_plain_kept_out(kind, w2);
    assert(v.subrange(a, a + w.len()) =~= t.take(w.len() as int));
    assert(v.subrange(x2, x2 + w2.len()) =~= t.skip(t.len() - w2.len()));
    lemma_run(s, 0, places, kind, a, w);
    lemma_run(s, 0, places, kind, x2, w2);
    lemma_runs_in_order(s, 0, places, kind, a, w, x2, w2);
    let (u, u2) = (source(s, 0, places, kind, a), source(s, 0, places, kind, x2));
    let whole = s.subrange(u, u2 + w2.len());
    assert(whole.take(w.len() as int) =~= s.subrange(u, u + w.len()));
    assert(whole.skip(whole.len() - w2.len()) =~= s.subrange(u2, u2 + w2.len()));
    assert(secrets::enclosed(whole, m, n));
    (u, u2 + w2.len())
}

proof fn lemma_first_not_space(s: Seq<char>, from: int, m: int) -> (r: int)
    requires
        0 <= from <= m < s.len(),
        !text::is_space(s[m]),
    ensures
        from <= r <= m,
        secrets::spaces(s, from, r),
        !text::is_space(s[r]),
    decreases m - from,
{
    if text::is_space(s[from]) {
        lemma_first_not_space(s, from + 1, m)
    } else {
        from
    }
}

/// What follows such a text, white space and then something else, follows it in the text too.
proof fn lemma_tail(
    s: Seq<char>,
    from: int,
    places: Seq<(int, int)>,
    kind: Seq<char>,
    x: int,
    w: Seq<char>,
    y: int,
) -> (r: int)
    requires
        laid_out(s, from, places),
        0 <= x && x + w.len() <= y < spliced(s, from, places, kind).len(),
        spliced(s, from, places, kind).subrange(x, x + w.len()) == w,
        unmarked(w),
        kept_out(kind, w),
        secrets::spaces(spliced(s, from, places, kind), x + w.len(), y),
        !text::is_space(spliced(s, from, places, kind)[y]),
        forall|k: int|
            0 <= k < places.len() ==> exists|m: int|
                (#[trigger] places[k]).0 <= m < places[k].1 && !text::is_space(#[trigger] s[m]),
    ensures
        ({
            let end = source(s, from, places, kind, x) + w.len();
            &&& end <= r < s.len()
            &&& secrets::spaces(s, end, r)
            &&& !text::is_space(s[r])
        }),
    decreases places.len(),
{
    let v = spliced(s, from, places, kind);
    let n = w.len() as int;
    lemma_run(s, from, places, kind, x, w);
    if places.len() == 0 {
        assert forall|i: int| from + x + n <= i < from + y implies text::is_space(
            #[trigger] s[i],
        ) by {
            assert(v[i - from] == s[i]);
        }
        from + y
    } else {
        let (a, b) = places[0];
        let rest = places.drop_first();
        let t = token(kind, s.subrange(a, b));
        let r = spliced(s, b, rest, kind);
        let gap = a - from;
        let skip = gap + t.len();
        lemma_token(kind, s.subrange(a, b));
        lemma_rest_laid_out(s, from, places);
        assert(v == s.subrange(from, a) + t + r);
        assert(v.subrange(gap, skip) =~= t);
        if x < gap {
            assert(v[gap] == '<');
            assert(y <= gap);
            assert forall|i: int| from + x + n <= i < from + y implies text::is_space(
                #[trigger] s[i],
            ) by {
                assert(v[i - from] == s[i]);
            }
            if y < gap {
                from + y
            } else {
                let m = choose|m: int| a <= m < b && !text::is_space(#[trigger] s[m]);
                let r = lemma_first_not_space(s, a, m);
                assert forall|i: int| from + x + n <= i < r implies text::is_space(
                    #[trigger] s[i],
                ) by {}
                r
            }
        } else {
            lemma_not_in_token(v, gap, t, x, w);
            assert(r.subrange(x - skip, x - skip + n) =~= w);
            assert forall|i: int| x - skip + n <= i < y - skip implies text::is_space(
                #[trigger] r[i],
            ) by {
                assert(v[i + skip] == r[i]);
            }
            assert(r[y - skip] == v[y]);
            assert forall|k: int| 0 <= k < rest.len() implies exists|m: int|
                (#[trigger] rest[k]).0 <= m < rest[k].1 && !text::is_space(#[trigger] s[m]) by {
                assert(rest[k] == places[k + 1]);
            }
            lemma_tail(s, b, rest, kind, x - skip, w, y - skip)
        }
    }
}

proof fn lemma_hex_not_equals(bytes: Seq<u8>, i: int)
    requires
        0 <= i < digest::hex(bytes).len(),
    ensures
        digest::hex(bytes)[i] != '=',
    decreases bytes.len(),
{
    let init = bytes.drop_last();
    if i < digest::hex(init).len() {
        lemma_hex_not_equals(init, i);
    }
}

proof fn lemma_equals_kept_out(w: Seq<char>, j: int)
    requires
        0 <= j < w.len(),
        w[j] == '=',
    ensures
        kept_out("env_assignment"@, w),
{
    let kind = "env_assignment"@;
    reveal_strlit("env_assignment");
    reveal_strlit("<redacted:");
    assert forall|secret: Seq<char>| sealed(#[trigger] token(kind, secret), w) by {
        let t = token(kind, secret);
        let head = digest::blake3_digest(vstd::utf8::encode_utf8(secret))@.subrange(0, 4);
        lemma_token(kind, secret);
        lemma_hex_len(head);
        assert forall|z: int| 0 <= z && z + w.len() <= t.len() implies #[trigger] t.subrange(
            z,
            z + w.len(),
        ) != w by {
            let i = z + j;
            assert(t.subrange(z, z + w.len())[j] == t[i]);
            if i < 10 {
                assert(t[i] == "<redacted:"@[i]);
            } else if i < 24 {
                assert(t[i] == kind[i - 10]);
            } else if 25 <= i < 33 {
                assert(t[i] == digest::hex(head)[i - 25]);
                lemma_hex_not_equals(head, i - 25);
            }
        }
    }
}

proof fn lemma_telltale_plain(t: Seq<char>)
    requires
        secrets::telltale(t),
    ensures
        plain(t),
{
    reveal_strlit("key");
    reveal_strlit("token");
    reveal_strlit("secret");
    reveal_strlit("password");
    reveal_strlit("passwd");
    reveal_strlit("api");
    if secrets::folds(t, "key"@) {
        lemma_folds_plain(t, "key"@);
    } else if secrets::folds(t, "token"@) {
        lemma_folds_plain(t, "token"@);
    } else if secrets::folds(t, "secret"@) {
        lemma_folds_plain(t, "secret"@);
    } else if secrets::folds(t, "password"@) {
        lemma_folds_plain(t, "password"@);
    } else if secrets::folds(t, "passwd"@) {
        lemma_folds_plain(t, "passwd"@);
    } else {
        lemma_folds_plain(t, "api"@);
    }
}

/// An assignment in the text spliced by the last rule starts in a gap of the text, and is one
/// there.
proof fn lemma_assignment_from_gap(s: Seq<char>, places: Seq<(int, int)>, a: int, b: int) -> (r: (
    int,
    int,
))
    requires
        laid_out(s, 0, places),
        forall|k: int|
            0 <= k < places.len() ==> secrets::occurs(
                Secret::EnvAssignment,
                s,
                (#[trigger] places[k]).0,
                places[k].1,
            ),
        secrets::occurs(Secret::EnvAssignment, spliced(s, 0, places, "env_assignment"@), a, b),
    ensures
        secrets::occurs(Secret::EnvAssignment, s, r.0, r.1),
        forall|k: int|
            0 <= k < places.len() ==> !((#[trigger] places[k]).0 <= r.0 < places[k].1),
{
    let kind = "env_assignment"@;
    let v = spliced(s, 0, places, kind);
    let c = choose|c: Cut| #[trigger] secrets::assigned(v, a, b, c);
    let w = v.subrange(a, c.equals + 1);
    let word = v.subrange(c.word, c.rest);
    lemma_telltale_plain(word);
    assert forall|i: int| 0 <= i < w.len() implies #[trigger] w[i] != '<' && w[i] != '>' by {
        let x = a + i;
        assert(w[i] == v[x]);
        if c.word <= x < c.rest {
            assert(word[x - c.word] == v[x]);
        }
    }
    assert(w[c.equals - a] == '=');
    lemma_equals_kept_out(w, c.equals - a);
    lemma_run(s, 0, places, kind, a, w);
    assert forall|k: int| 0 <= k < places.len() implies exists|m: int|
        (#[trigger] places[k]).0 <= m < places[k].1 && !text::is_space(#[trigger] s[m]) by {
        let d = choose|d: Cut| #[trigger]
            secrets::assigned(s, places[k].0, places[k].1, d);
        assert(!text::is_space(s[d.equals]));
    }
    let y = lemma_tail(s, 0, places, kind, a, w, c.value);
    let u = source(s, 0, places, kind, a);
    let by = u - a;
    assert forall|i: int| a <= i <= c.equals implies #[trigger] v[i] == s[i + by] by {
        assert(w[i - a] == v[i]);
        assert(s.subrange(u, u + w.len())[i - a] == s[i + by]);
    }
    let d = Cut {
        name: c.name + by,
        word: c.word + by,
        rest: c.rest + by,
        blank: c.blank + by,
        equals: c.equals + by,
        value: y,
    };
    assert(s.subrange(d.word, d.rest) =~= word);
    assert forall|i: int| u <= i < d.name implies text::is_space(#[trigger] s[i]) by {
        assert(v[i - by] == s[i]);
    }
    assert forall|i: int| d.name <= i < d.word implies secrets::folded_alnum(#[trigger] s[i])
        || s[i] == '_' by {
        assert(v[i - by] == s[i]);
    }
    assert forall|i: int| d.rest <= i < d.blank implies secrets::folded_alnum(#[trigger] s[i])
        || s[i] == '_' by {
        assert(v[i - by] == s[i]);
    }
    assert forall|i: int| d.blank <= i < d.equals implies text::is_space(#[trigger] s[i]) by {
        assert(v[i - by] == s[i]);
    }
    assert(v[c.equals] == s[d.equals]);
    assert(secrets::assigned(s, u, y + 1, d));
    (u, y + 1)
}

/// A secret in the text spliced by a rule, of the shape of that rule or an earlier one, starts
/// in a gap of the text, and is one there.
proof fn lemma_from_gap(s: Seq<char>, i: int, places: Seq<(int, int)>, j: int, a: int, b: int) -> (r: (
    int,
    int,
))
    requires
        0 <= j <= i < RULES,
        laid_out(s, 0, places),
        secrets::finds(rule_at(i).1, s, places),
        secrets::occurs(rule_at(j).1, spliced(s, 0, places, rule_at(i).0), a, b),
    ensures
        secrets::occurs(rule_at(j).1, s, r.0, r.1),
        forall|k: int|
            0 <= k < places.len() ==> !((#[trigger] places[k]).0 <= r.0 < places[k].1),
{
    let p = rule_at(j).1;
    let kind = rule_at(i).0;
    lemma_kinds(i);
    if p == Secret::EnvAssignment {
        assert(j == 8 && i == 8);
        lemma_assignment_from_gap(s, places, a, b)
    } else if p == Secret::PrivateKey {
        lemma_key_from_gaps(s, places, kind, a, b)
    } else {
        lemma_shape_from_gap(p, s, places, kind, a, b)
    }
}

proof fn lemma_found_are_laid_out(p: Secret, s: Seq<char>, places: Seq<(int, int)>)
    requires
        secrets::finds(p, s, places),
    ensures
        laid_out(s, 0, places),
        places.len() != 0 ==> secrets::found(p, s),
{
    assert forall|k: int| 0 <= k < places.len() implies 0 <= (#[trigger] places[k]).0 <= places[k].1
        <= s.len() by {
        assert(secrets::occurs(p, s, places[k].0, places[k].1));
    }
    if places.len() != 0 {
        assert(secrets::occurs(p, s, places[0].0, places[0].1));
    }
}

proof fn lemma_none_left(s: Seq<char>, i: int, places: Seq<(int, int)>, j: int)
    requires
        0 <= j <= i < RULES,
        clean_of(s, i),
        secrets::finds(rule_at(i).1, s, places),
    ensures
        !secrets::found(rule_at(j).1, spliced(s, 0, places, rule_at(i).0)),
{
    let p = rule_at(j).1;
    let v = spliced(s, 0, places, rule_at(i).0);
    lemma_found_are_laid_out(rule_at(i).1, s, places);
    if secrets::found(p, v) {
        let (a, b) = choose|a: int, b: int| secrets::occurs(p, v, a, b);
        let (x, y) = lemma_from_gap(s, i, places, j, a, b);
        assert(secrets::occurs(p, s, x, y));
        if j < i {
            assert(!secrets::found(rule_at(j).1, s));
        }
    }
}

/// A rule leaves nothing that it or an earlier rule matches, and changes nothing where none
/// matches.
proof fn lemma_rule_cleans(s: Seq<char>, i: int, spans: Seq<(usize, usize)>)
    requires
        0 <= i < RULES,
        clean_of(s, i),
        spans == secrets::regex_spans(rule_at(i).1.text(), s),
        secrets::walked(rule_at(i).1, s, spans),
    ensures
        clean_of(after_rule(s, i), i + 1),
        !has_secret(s) ==> after_rule(s, i) == s,
{
    let (kind, secret) = rule_at(i);
    let places = choose|places: Seq<(int, int)>|
        secrets::finds(secret, s, places) && #[trigger] secrets::placed(s, places, spans);
    lemma_found_are_laid_out(secret, s, places);
    assert(s.take(0) =~= Seq::<char>::empty());
    lemma_spliced(s, 0, places, spans, kind);
    assert(after_rule(s, i) == spliced(s, 0, places, kind));
    assert forall|j: int| 0 <= j < i + 1 implies !secrets::found(
        (#[trigger] rule_at(j)).1,
        after_rule(s, i),
    ) by {
        lemma_none_left(s, i, places, j);
    }
    if !has_secret(s) {
        assert(!secrets::found(rule_at(i).1, s));
        assert(s.skip(0) =~= s);
    }
}

/// Replaces every span that looks like a secret by its token. No secret is left, and text
/// without secrets is left as it is, so redacting again changes nothing.
pub fn redact(input: &str) -> (r: String)
    ensures
        r@ == redacted(input@),
        !has_secret(r@),
        !has_secret(input@) ==> r@ == input@,
{
    let mut out = input.to_owned();
    for i in 0..RULES
        invariant
            out@ == after_rules(input@, i as nat),
            clean_of(out@, i as int),
            !has_secret(input@) ==> out@ == input@,
    {
        let (kind, secret) = rule(i);
        let spans = secrets::find_spans(secret, out.as_str());
        let ghost before = out@;
        out = replace(out.as_str(), &spans, kind);
        assert(out@ == after_rule(before, i as int));
        proof {
            assert(rule_at(i as int) == (kind@, secret));
            lemma_rule_cleans(before, i as int, spans@);
        }
    }
    out
}

/// Whether some rule matches the text.
pub fn contains_secret(input: &str) -> (r: bool)
    ensures
        r == has_secret(input@),
{
    for i in 0..RULES
        invariant
            forall|j: int|
                0 <= j < i ==> !secrets::found((#[trigger] rule_at(j)).1, input@),
    {
        let (kind, secret) = rule(i);
        if secrets::is_match(secret, input) {
            assert(rule_at(i as int).1 == secret);
            return true;
        }
    }
    false
}

// ---------------------------------------------------------------------------
// Laws
// ---------------------------------------------------------------------------

/// A secret gives way to a token that says its kind and the first eight digits of its digest.
pub proof fn tokens_say_kind_and_digest(kind: Seq<char>, secret: Seq<char>)
    ensures
        token(kind, secret).len() == kind.len() + 20,
        token(kind, secret).subrange(0, 10) == "<redacted:"@,
        token(kind, secret).subrange(10, 10 + kind.len() as int) == kind,
        token(kind, secret)[10 + kind.len() as int] == ':',
        token(kind, secret).subrange(11 + kind.len() as int, 19 + kind.len() as int) == digest::hex(
            digest::blake3_digest(vstd::utf8::encode_utf8(secret))@.subrange(0, 4),
        ),
        token(kind, secret).last() == '>',
{
    lemma_token(kind, secret);
    reveal_strlit("<redacted:");
    let t = token(kind, secret);
    let n = kind.len() as int;
    let hex = digest::hex(
        digest::blake3_digest(vstd::utf8::encode_utf8(secret))@.subrange(0, 4),
    );
    lemma_hex_len(digest::blake3_digest(vstd::utf8::encode_utf8(secret))@.subrange(0, 4));
    assert(t.subrange(0, 10) =~= "<redacted:"@);
    assert(t.subrange(10, 10 + n) =~= kind);
    assert(t.subrange(11 + n, 19 + n) =~= hex);
}

proof fn lemma_spliced_keeps(
    s: Seq<char>,
    from: int,
    places: Seq<(int, int)>,
    kind: Seq<char>,
    x: int,
    y: int,
)
    requires
        laid_out(s, from, places),
        from <= x <= y <= s.len(),
        forall|k: int|
            0 <= k < places.len() ==> y <= (#[trigger] places[k]).0 || places[k].1 <= x,
    ensures
        text::occurs(spliced(s, from, places, kind), s.subrange(x, y)),
    decreases places.len(),
{
    let all = spliced(s, from, places, kind);
    let w = s.subrange(x, y);
    if places.len() == 0 {
        assert(all.subrange(x - from, y - from) =~= w);
        assert(text::occurs_at(all, w, x - from));
    } else {
        let gap = s.subrange(from, places[0].0);
        let t = token(kind, s.subrange(places[0].0, places[0].1));
        let rest = spliced(s, places[0].1, places.drop_first(), kind);
        assert(all == gap + t + rest);
        if y <= places[0].0 {
            assert(all.subrange(x - from, y - from) =~= w);
            assert(text::occurs_at(all, w, x - from));
        } else {
            lemma_rest_laid_out(s, from, places);
            let p = places.drop_first();
            assert forall|k: int| 0 <= k < p.len() implies y <= (#[trigger] p[k]).0 || p[k].1 <= x by {
                assert(p[k] == places[k + 1]);
            }
            lemma_spliced_keeps(s, places[0].1, p, kind, x, y);
            let i = choose|i: int| #[trigger] text::occurs_at(rest, w, i);
            let at = gap.len() + t.len() + i;
            assert(all.subrange(at, at + w.len()) =~= rest.subrange(i, i + w.len()));
            assert(text::occurs_at(all, w, at));
        }
    }
}

proof fn lemma_spliced_marks(s: Seq<char>, from: int, places: Seq<(int, int)>, kind: Seq<char>, k: int)
    requires
        0 <= k < places.len(),
    ensures
        text::occurs(
            spliced(s, from, places, kind),
            token(kind, s.subrange(places[k].0, places[k].1)),
        ),
    decreases places.len(),
{
    let all = spliced(s, from, places, kind);
    let gap = s.subrange(from, places[0].0);
    let t = token(kind, s.subrange(places[0].0, places[0].1));
    let rest = spliced(s, places[0].1, places.drop_first(), kind);
    assert(all == gap + t + rest);
    if k == 0 {
        let at = gap.len() as int;
        assert(all.subrange(at, at + t.len()) =~= t);
        assert(text::occurs_at(all, t, at));
    } else {
        let p = places.drop_first();
        assert(p[k - 1] == places[k]);
        lemma_spliced_marks(s, places[0].1, p, kind, k - 1);
        let w = token(kind, s.subrange(places[k].0, places[k].1));
        let i = choose|i: int| #[trigger] text::occurs_at(rest, w, i);
        let at = gap.len() + t.len() + i;
        assert(all.subrange(at, at + w.len()) =~= rest.subrange(i, i + w.len()));
        assert(text::occurs_at(all, w, at));
    }
}

/// Redaction takes nothing but secrets: whatever stands between two of them is kept as it is,
/// and each of them leaves its token.
pub proof fn only_secrets_are_taken(
    s: Seq<char>,
    places: Seq<(int, int)>,
    spans: Seq<(usize, usize)>,
    kind: Seq<char>,
    x: int,
    y: int,
    k: int,
)
    requires
        laid_out(s, 0, places),
        secrets::placed(s, places, spans),
        0 <= x <= y <= s.len(),
        forall|j: int|
            0 <= j < places.len() ==> y <= (#[trigger] places[j]).0 || places[j].1 <= x,
    ensures
        text::occurs(replaced_from(s, 0, spans, kind), s.subrange(x, y)),
        0 <= k < places.len() ==> text::occurs(
            replaced_from(s, 0, spans, kind),
            token(kind, s.subrange(places[k].0, places[k].1)),
        ),
        places.len() == 0 ==> replaced_from(s, 0, spans, kind) == s,
{
    assert(s.take(0).len() == 0);
    assert(s.take(0) =~= Seq::<char>::empty());
    assert(secrets::byte_of(s, 0) == 0);
    lemma_spliced(s, 0, places, spans, kind);
    lemma_spliced_keeps(s, 0, places, kind, x, y);
    if 0 <= k < places.len() {
        lemma_spliced_marks(s, 0, places, kind, k);
    }
    assert(s.skip(0) =~= s);
}

/// Every sort of secret has its rule, and is called what it is.
pub proof fn every_secret_has_its_rule()
    ensures
        RULES == 9,
        rule_at(0) == ("anthropic_key"@, Secret::AnthropicKey),
        rule_at(1) == ("openai_key"@, Secret::OpenAiKey),
        rule_at(2) == ("aws_access_key"@, Secret::AwsAccessKey),
        rule_at(3) == ("slack_token"@, Secret::SlackToken),
        rule_at(4) == ("github_token"@, Secret::GithubToken),
        rule_at(5) == ("google_key"@, Secret::GoogleKey),
        rule_at(6) == ("private_key"@, Secret::PrivateKey),
        rule_at(7) == ("bearer"@, Secret::Bearer),
        rule_at(8) == ("env_assignment"@, Secret::EnvAssignment),
{
}

} // verus!
