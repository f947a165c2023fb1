//! The shapes of secrets, as expressions of the `regex` crate and in the words of a
//! specification.

use vstd::prelude::*;

use regex::Regex;

use crate::text;

verus! {

/// The shapes of secrets.
#[derive(Clone, Copy, PartialEq, Eq, Structural)]
pub enum Secret {
    AnthropicKey,
    OpenAiKey,
    AwsAccessKey,
    SlackToken,
    GithubToken,
    GoogleKey,
    PrivateKey,
    Bearer,
    EnvAssignment,
}

impl Secret {
    /// The source of the expression.
    pub open spec fn text(self) -> Seq<char> {
        match self {
            Secret::AnthropicKey => r"sk-ant-[A-Za-z0-9_\-]{20,}"@,
            Secret::OpenAiKey => r"sk-[A-Za-z0-9]{20,}"@,
            Secret::AwsAccessKey => r"AKIA[0-9A-Z]{16}"@,
            Secret::SlackToken => r"xox[abpr]-[0-9A-Za-z-]{10,}"@,
            Secret::GithubToken => r"gh[pousr]_[A-Za-z0-9]{20,}"@,
            Secret::GoogleKey => r"AIza[0-9A-Za-z_\-]{30,}"@,
            Secret::PrivateKey => r"(?s)-----BEGIN (?:RSA |EC |OPENSSH |DSA )?PRIVATE KEY-----.*?-----END (?:RSA |EC |OPENSSH |DSA )?PRIVATE KEY-----"@,
            Secret::Bearer => r"(?i)bearer\s+[A-Za-z0-9._\-]{20,}"@,
            Secret::EnvAssignment => r"(?im)^\s*[A-Z0-9_]*(?:KEY|TOKEN|SECRET|PASSWORD|PASSWD|API)[A-Z0-9_]*\s*=\s*\S+"@,
        }
    }

    /// The source of the expression.
    pub fn source(self) -> (r: &'static str)
        ensures
            r@ == self.text(),
    {
        match self {
            Secret::AnthropicKey => r"sk-ant-[A-Za-z0-9_\-]{20,}",
            Secret::OpenAiKey => r"sk-[A-Za-z0-9]{20,}",
            Secret::AwsAccessKey => r"AKIA[0-9A-Z]{16}",
            Secret::SlackToken => r"xox[abpr]-[0-9A-Za-z-]{10,}",
            Secret::GithubToken => r"gh[pousr]_[A-Za-z0-9]{20,}",
            Secret::GoogleKey => r"AIza[0-9A-Za-z_\-]{30,}",
            Secret::PrivateKey => r"(?s)-----BEGIN (?:RSA |EC |OPENSSH |DSA )?PRIVATE KEY-----.*?-----END (?:RSA |EC |OPENSSH |DSA )?PRIVATE KEY-----",
            Secret::Bearer => r"(?i)bearer\s+[A-Za-z0-9._\-]{20,}",
            Secret::EnvAssignment => r"(?im)^\s*[A-Z0-9_]*(?:KEY|TOKEN|SECRET|PASSWORD|PASSWD|API)[A-Z0-9_]*\s*=\s*\S+",
        }
    }
}

// ---------------------------------------------------------------------------
// What the expressions match
// ---------------------------------------------------------------------------

/// `[A-Za-z0-9]`.
pub open spec fn alnum(c: char) -> bool {
    'A' <= c <= 'Z' || 'a' <= c <= 'z' || '0' <= c <= '9'
}

/// `[A-Za-z0-9_\-]`.
pub open spec fn key_char(c: char) -> bool {
    alnum(c) || c == '_' || c == '-'
}

/// `[A-Za-z0-9]` without regard to case: the long s and the Kelvin sign fold to letters of it.
pub open spec fn folded_alnum(c: char) -> bool {
    alnum(c) || c == '\u{17f}' || c == '\u{212a}'
}

/// Whether a character folds to a lower-case ASCII letter.
pub open spec fn folds_to(c: char, letter: char) -> bool {
    ||| c == letter
    ||| c as u32 + 32 == letter as u32
    ||| letter == 's' && c == '\u{17f}'
    ||| letter == 'k' && c == '\u{212a}'
}

/// Whether a text is a word of lower-case ASCII letters, without regard to case.
pub open spec fn folds(t: Seq<char>, word: Seq<char>) -> bool {
    t.len() == word.len() && forall|i: int| 0 <= i < t.len() ==> folds_to(#[trigger] t[i], word[i])
}

/// Whether the characters from one place up to another are white space.
pub open spec fn spaces(s: Seq<char>, from: int, to: int) -> bool {
    forall|i: int| from <= i < to ==> text::is_space(#[trigger] s[i])
}

/// Whether the characters from one place up to another are of `[A-Z0-9_]`, without regard to
/// case.
pub open spec fn name_chars(s: Seq<char>, from: int, to: int) -> bool {
    forall|i: int| from <= i < to ==> folded_alnum(#[trigger] s[i]) || s[i] == '_'
}

/// The words in front of `PRIVATE KEY` in the marker of a key.
pub open spec fn key_type(n: int) -> Seq<char> {
    if n == 0 {
        ""@
    } else if n == 1 {
        "RSA "@
    } else if n == 2 {
        "EC "@
    } else if n == 3 {
        "OPENSSH "@
    } else {
        "DSA "@
    }
}

/// The marker that opens or closes a private key.
pub open spec fn marker(word: Seq<char>, n: int) -> Seq<char> {
    word + key_type(n) + "PRIVATE KEY-----"@
}

/// Whether a text opens with one marker and closes with another.
pub open spec fn enclosed(t: Seq<char>, m: int, n: int) -> bool {
    let open = marker("-----BEGIN "@, m);
    let close = marker("-----END "@, n);
    &&& open.len() + close.len() <= t.len()
    &&& t.take(open.len() as int) == open
    &&& t.skip(t.len() - close.len()) == close
}

/// Whether a text is the word `bearer`, white space up to a place, and a token.
pub open spec fn bears(t: Seq<char>, at: int) -> bool {
    &&& 7 <= at && at + 20 <= t.len()
    &&& folds(t.take(6), "bearer"@)
    &&& spaces(t, 6, at)
    &&& forall|i: int|
        at <= i < t.len() ==> folded_alnum(#[trigger] t[i]) || t[i] == '.' || t[i] == '_' || t[i]
            == '-'
}

/// Whether a text has a shape, for the shapes that do not depend on what is around them.
pub open spec fn shaped(p: Secret, t: Seq<char>) -> bool {
    match p {
        Secret::AnthropicKey => t.len() >= 27 && t.take(7) == "sk-ant-"@ && forall|i: int|
            7 <= i < t.len() ==> key_char(#[trigger] t[i]),
        Secret::OpenAiKey => t.len() >= 23 && t.take(3) == "sk-"@ && forall|i: int|
            3 <= i < t.len() ==> alnum(#[trigger] t[i]),
        Secret::AwsAccessKey => t.len() == 20 && t.take(4) == "AKIA"@ && forall|i: int|
            4 <= i < t.len() ==> '0' <= #[trigger] t[i] <= '9' || 'A' <= t[i] <= 'Z',
        Secret::SlackToken => t.len() >= 15 && t.take(3) == "xox"@ && "abpr"@.contains(t[3]) && t[4]
            == '-' && forall|i: int| 5 <= i < t.len() ==> alnum(#[trigger] t[i]) || t[i] == '-',
        Secret::GithubToken => t.len() >= 24 && t.take(2) == "gh"@ && "pousr"@.contains(t[2])
            && t[3] == '_' && forall|i: int| 4 <= i < t.len() ==> alnum(#[trigger] t[i]),
        Secret::GoogleKey => t.len() >= 34 && t.take(4) == "AIza"@ && forall|i: int|
            4 <= i < t.len() ==> key_char(#[trigger] t[i]),
        Secret::PrivateKey => exists|m: int, n: int|
            0 <= m < 5 && 0 <= n < 5 && #[trigger] enclosed(t, m, n),
        Secret::Bearer => exists|at: int| #[trigger] bears(t, at),
        Secret::EnvAssignment => false,
    }
}

/// The words of which an assigned name holds one.
pub open spec fn telltale(t: Seq<char>) -> bool {
    ||| folds(t, "key"@)
    ||| folds(t, "token"@)
    ||| folds(t, "secret"@)
    ||| folds(t, "password"@)
    ||| folds(t, "passwd"@)
    ||| folds(t, "api"@)
}

/// The places inside an assignment: where the name starts, where its telltale word starts and
/// ends, where the name ends, the equals sign, and where the value starts.
pub struct Cut {
    pub name: int,
    pub word: int,
    pub rest: int,
    pub blank: int,
    pub equals: int,
    pub value: int,
}

/// Whether an assignment stands between two places, with its parts at the given ones.
pub open spec fn assigned(s: Seq<char>, a: int, b: int, c: Cut) -> bool {
    &&& a <= c.name <= c.word <= c.rest <= c.blank <= c.equals < c.value < b
    &&& a == 0 || s[a - 1] == '\n'
    &&& spaces(s, a, c.name)
    &&& name_chars(s, c.name, c.word)
    &&& telltale(s.subrange(c.word, c.rest))
    &&& name_chars(s, c.rest, c.blank)
    &&& spaces(s, c.blank, c.equals)
    &&& s[c.equals] == '='
    &&& spaces(s, c.equals + 1, c.value)
    &&& forall|i: int| c.value <= i < b ==> !text::is_space(#[trigger] s[i])
}

/// Whether a secret of a shape stands in a text between two places.
pub open spec fn occurs(p: Secret, s: Seq<char>, a: int, b: int) -> bool {
    &&& 0 <= a <= b <= s.len()
    &&& match p {
        Secret::EnvAssignment => exists|c: Cut| #[trigger] assigned(s, a, b, c),
        _ => shaped(p, s.subrange(a, b)),
    }
}

/// Whether a secret of a shape stands anywhere in a text.
pub open spec fn found(p: Secret, s: Seq<char>) -> bool {
    exists|a: int, b: int| occurs(p, s, a, b)
}

/// Places of secrets, in order and without overlap, such that no secret starts outside them.
pub open spec fn finds(p: Secret, s: Seq<char>, places: Seq<(int, int)>) -> bool {
    &&& forall|k: int|
        0 <= k < places.len() ==> occurs(p, s, (#[trigger] places[k]).0, places[k].1)
    &&& forall|k: int, l: int|
        0 <= k < l < places.len() ==> (#[trigger] places[k]).1 <= (#[trigger] places[l]).0
    &&& forall|a: int, b: int| #[trigger]
        occurs(p, s, a, b) ==> exists|k: int|
            0 <= k < places.len() && (#[trigger] places[k]).0 <= a < places[k].1
}

/// Where a character starts in the encoding of its text.
pub open spec fn byte_of(s: Seq<char>, at: int) -> int {
    vstd::utf8::encode_utf8(s.take(at)).len() as int
}

/// Whether byte spans stand for places of characters.
pub open spec fn placed(s: Seq<char>, places: Seq<(int, int)>, spans: Seq<(usize, usize)>) -> bool {
    &&& spans.len() == places.len()
    &&& forall|k: int|
        0 <= k < spans.len() ==> (#[trigger] spans[k]).0 == byte_of(s, places[k].0) && spans[k].1
            == byte_of(s, places[k].1)
}

/// Whether byte spans are those of a walk over the secrets of a shape.
pub open spec fn walked(p: Secret, s: Seq<char>, spans: Seq<(usize, usize)>) -> bool {
    exists|places: Seq<(int, int)>| finds(p, s, places) && #[trigger] placed(s, places, spans)
}

// ---------------------------------------------------------------------------
// Searching
// ---------------------------------------------------------------------------

/// The byte spans that `Regex::find_iter` walks over, for the source of an expression and a
/// text.
pub uninterp spec fn regex_spans(pattern: Seq<char>, text: Seq<char>) -> Seq<(usize, usize)>;

/// Spans inside a text, on character boundaries, ascending and without overlap.
pub open spec fn well_placed(spans: Seq<(usize, usize)>, text: Seq<char>) -> bool {
    let bytes = vstd::utf8::encode_utf8(text);
    &&& forall|i: int|
        0 <= i < spans.len() ==> (#[trigger] spans[i]).0 <= spans[i].1 <= bytes.len()
            && vstd::utf8::is_char_boundary(bytes, spans[i].0 as int)
            && vstd::utf8::is_char_boundary(bytes, spans[i].1 as int)
    &&& forall|i: int, j: int|
        0 <= i < j < spans.len() ==> (#[trigger] spans[i]).1 <= (#[trigger] spans[j]).0
}

/// `Regex::find_iter`: where an expression matches is a function of its source and the text.
/// The matches come in order, do not overlap, and start and end on character boundaries. Each
/// is an occurrence of the shape that the expression spells out. Each search takes the leftmost
/// match from where the one before it ended, so no occurrence starts outside a match.
#[verifier::external_body]
pub(crate) fn find_spans(secret: Secret, text: &str) -> (r: Vec<(usize, usize)>)
    ensures
        r@ == regex_spans(secret.text(), text@),
        well_placed(r@, text@),
        walked(secret, text@, r@),
{
    let re = Regex::new(secret.source()).unwrap();
    re.find_iter(text).map(|m| (m.start(), m.end())).collect()
}

/// `Regex::is_match`: whether the expression matches anywhere, that is, whether there is an
/// occurrence of the shape that it spells out.
#[verifier::external_body]
pub(crate) fn is_match(secret: Secret, text: &str) -> (r: bool)
    ensures
        r == found(secret, text@),
{
    Regex::new(secret.source()).unwrap().is_match(text)
}

// ---------------------------------------------------------------------------
// Laws
// ---------------------------------------------------------------------------

/// The expressions that find secrets, as they are handed to the search.
pub proof fn expressions_are_these()
    ensures
        Secret::AnthropicKey.text() == r"sk-ant-[A-Za-z0-9_\-]{20,}"@,
        Secret::OpenAiKey.text() == r"sk-[A-Za-z0-9]{20,}"@,
        Secret::AwsAccessKey.text() == r"AKIA[0-9A-Z]{16}"@,
        Secret::SlackToken.text() == r"xox[abpr]-[0-9A-Za-z-]{10,}"@,
        Secret::GithubToken.text() == r"gh[pousr]_[A-Za-z0-9]{20,}"@,
        Secret::GoogleKey.text() == r"AIza[0-9A-Za-z_\-]{30,}"@,
        Secret::PrivateKey.text() == r"(?s)-----BEGIN (?:RSA |EC |OPENSSH |DSA )?PRIVATE KEY-----.*?-----END (?:RSA |EC |OPENSSH |DSA )?PRIVATE KEY-----"@,
        Secret::Bearer.text() == r"(?i)bearer\s+[A-Za-z0-9._\-]{20,}"@,
        Secret::EnvAssignment.text() == r"(?im)^\s*[A-Z0-9_]*(?:KEY|TOKEN|SECRET|PASSWORD|PASSWD|API)[A-Z0-9_]*\s*=\s*\S+"@,
{
}

} // verus!
