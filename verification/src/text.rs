//! Text as sequences of characters: the searching, splitting and trimming that the rest
//! of the library is stated over.

use vstd::prelude::*;
use vstd::slice::slice_subrange;
use vstd::string::*;

verus! {

// ---------------------------------------------------------------------------
// Characters
// ---------------------------------------------------------------------------

/// The Unicode `White_Space` property.
pub open spec fn is_space(c: char) -> bool {
    let u = c as u32;
    ||| 0x09 <= u <= 0x0d
    ||| u == 0x20
    ||| u == 0x85
    ||| u == 0xa0
    ||| u == 0x1680
    ||| 0x2000 <= u <= 0x200a
    ||| u == 0x2028
    ||| u == 0x2029
    ||| u == 0x202f
    ||| u == 0x205f
    ||| u == 0x3000
}

/// `char::is_whitespace` tests the Unicode `White_Space` property.
pub assume_specification[ char::is_whitespace ](c: char) -> (r: bool)
    ensures
        r == is_space(c),
;

/// What `char::is_alphanumeric` says of a character outside ASCII.
pub uninterp spec fn unicode_alphanumeric(c: char) -> bool;

/// Alphanumeric: an ASCII letter or digit, or a character beyond ASCII with the Unicode
/// properties `Alphabetic` or `Numeric`.
pub open spec fn is_word(c: char) -> bool {
    if (c as u32) < 128 {
        '0' <= c <= '9' || 'A' <= c <= 'Z' || 'a' <= c <= 'z'
    } else {
        unicode_alphanumeric(c)
    }
}

/// `char::is_alphanumeric`: within ASCII exactly the letters and digits, beyond it the
/// answer of the Unicode tables, under a name.
pub assume_specification[ char::is_alphanumeric ](c: char) -> (r: bool)
    ensures
        r == (if (c as u32) < 128 {
            '0' <= c <= '9' || 'A' <= c <= 'Z' || 'a' <= c <= 'z'
        } else {
            unicode_alphanumeric(c)
        }),
;

/// ASCII lower case of one character; every other character is kept.
pub open spec fn ascii_lower(c: char) -> char {
    if 'A' <= c <= 'Z' {
        ((c as u32) + 32) as char
    } else {
        c
    }
}

/// ASCII lower case of a text.
pub open spec fn ascii_lowered(s: Seq<char>) -> Seq<char> {
    s.map_values(|c: char| ascii_lower(c))
}

/// What `str::to_lowercase` makes of a text that is not all ASCII.
pub uninterp spec fn unicode_lowercase(s: Seq<char>) -> Seq<char>;

/// Lower case: of ASCII text letter by letter, of any other text by the Unicode tables.
pub open spec fn lowered(s: Seq<char>) -> Seq<char> {
    if vstd::utf8::is_ascii_chars(s) {
        ascii_lowered(s)
    } else {
        unicode_lowercase(s)
    }
}

/// `str::to_lowercase`: ASCII text is lowered letter by letter; for other text the result
/// of the Unicode tables is under a name.
pub assume_specification[ str::to_lowercase ](s: &str) -> (r: String)
    ensures
        r@ == (if vstd::utf8::is_ascii_chars(s@) {
            ascii_lowered(s@)
        } else {
            unicode_lowercase(s@)
        }),
;

/// `String::push` appends one character.
pub assume_specification[ String::push ](s: &mut String, c: char)
    ensures
        final(s)@ == old(s)@.push(c),
;

/// The sets of characters that texts are searched for and split at.
#[derive(Clone, Copy)]
pub enum CharClass {
    /// One character.
    Is(char),
    /// `.`, `!`, `?`.
    Stop,
    /// `.`, `!`, `?` or a line feed.
    SentenceEnd,
    /// White space.
    Space,
    /// Anything that is not alphanumeric.
    NonWord,
    /// `/` or `\`.
    PathSep,
    /// `=` or a blank.
    EqualsOrBlank,
    /// Anything that is neither alphanumeric nor `-`, `_` or `.`.
    NonPackageName,
}

impl CharClass {
    /// Membership.
    pub open spec fn has(self, c: char) -> bool {
        match self {
            CharClass::Is(d) => c == d,
            CharClass::Stop => c == '.' || c == '!' || c == '?',
            CharClass::SentenceEnd => c == '.' || c == '!' || c == '?' || c == '\n',
            CharClass::Space => is_space(c),
            CharClass::NonWord => !is_word(c),
            CharClass::PathSep => c == '/' || c == '\\',
            CharClass::EqualsOrBlank => c == '=' || c == ' ',
            CharClass::NonPackageName => !(is_word(c) || c == '-' || c == '_' || c == '.'),
        }
    }

    /// Membership test.
    pub fn test(self, c: char) -> (r: bool)
        ensures
            r == self.has(c),
    {
        match self {
            CharClass::Is(d) => c == d,
            CharClass::Stop => c == '.' || c == '!' || c == '?',
            CharClass::SentenceEnd => c == '.' || c == '!' || c == '?' || c == '\n',
            CharClass::Space => c.is_whitespace(),
            CharClass::NonWord => !c.is_alphanumeric(),
            CharClass::PathSep => c == '/' || c == '\\',
            CharClass::EqualsOrBlank => c == '=' || c == ' ',
            CharClass::NonPackageName => !(c.is_alphanumeric() || c == '-' || c == '_' || c == '.'),
        }
    }
}

// ---------------------------------------------------------------------------
// Conversions
// ---------------------------------------------------------------------------

/// The characters of a string.
pub fn chars_of(s: &str) -> (r: Vec<char>)
    ensures
        r@ == s@,
{
    let mut out: Vec<char> = Vec::new();
    for c in it: s.chars()
        invariant
            it.seq() == s@,
            out@ == s@.take(it.index() as int),
    {
        out.push(c);
    }
    out
}

/// The string of the given characters.
pub fn string_of(cs: &[char]) -> (r: String)
    ensures
        r@ == cs@,
{
    let mut out = String::new();
    let n: usize = cs.len();
    for i in 0..n
        invariant
            n == cs@.len(),
            out@ == cs@.take(i as int),
    {
        out.push(cs[i]);
        assert(cs@.take(i + 1) =~= cs@.take(i as int).push(cs@[i as int]));
    }
    assert(cs@.take(n as int) =~= cs@);
    out
}

/// The views of a list of texts.
pub open spec fn views(v: Seq<Vec<char>>) -> Seq<Seq<char>> {
    v.map_values(|t: Vec<char>| t@)
}

/// The views of a list of strings.
pub open spec fn string_views(v: Seq<String>) -> Seq<Seq<char>> {
    v.map_values(|t: String| t@)
}

/// A copy of a part of a text.
pub fn part(s: &[char], from: usize, to: usize) -> (r: Vec<char>)
    requires
        from <= to <= s@.len(),
    ensures
        r@ == s@.subrange(from as int, to as int),
{
    let mut out: Vec<char> = Vec::new();
    for i in from..to
        invariant
            from <= to <= s@.len(),
            out@ == s@.subrange(from as int, i as int),
    {
        out.push(s[i]);
        assert(s@.subrange(from as int, i + 1) =~= s@.subrange(from as int, i as int).push(
            s@[i as int],
        ));
    }
    out
}

/// Appends one text to another.
pub fn append(out: &mut Vec<char>, s: &[char])
    ensures
        final(out)@ == old(out)@ + s@,
{
    let n: usize = s.len();
    for i in 0..n
        invariant
            n == s@.len(),
            out@ == old(out)@ + s@.take(i as int),
    {
        out.push(s[i]);
        assert(old(out)@ + s@.take(i + 1) =~= (old(out)@ + s@.take(i as int)).push(s@[i as int]));
    }
    assert(s@.take(n as int) =~= s@);
}

/// Appends a string to a text.
pub fn append_str(out: &mut Vec<char>, s: &str)
    ensures
        final(out)@ == old(out)@ + s@,
{
    let cs = chars_of(s);
    append(out, &cs);
}

/// Whether two texts are the same.
pub fn same(a: &[char], b: &[char]) -> (r: bool)
    ensures
        r == (a@ == b@),
{
    if a.len() != b.len() {
        return false;
    }
    let n: usize = a.len();
    for i in 0..n
        invariant
            n == a@.len() == b@.len(),
            forall|j: int| 0 <= j < i ==> a@[j] == b@[j],
    {
        if a[i] != b[i] {
            assert(a@[i as int] != b@[i as int]);
            return false;
        }
    }
    assert(a@ =~= b@);
    true
}

/// Whether two strings are the same.
pub fn same_str(a: &str, b: &str) -> (r: bool)
    ensures
        r == (a@ == b@),
{
    let x = a.as_bytes();
    let y = b.as_bytes();
    let n: usize = x.len();
    if n != y.len() {
        return false;
    }
    for i in 0..n
        invariant
            n == x@.len() == y@.len(),
            x@ == vstd::utf8::encode_utf8(a@),
            y@ == vstd::utf8::encode_utf8(b@),
            forall|j: int| 0 <= j < i ==> x@[j] == y@[j],
    {
        if x[i] != y[i] {
            assert(x@[i as int] != y@[i as int]);
            return false;
        }
    }
    proof {
        assert(x@ =~= y@);
        vstd::utf8::encode_utf8_decode_utf8(a@);
        vstd::utf8::encode_utf8_decode_utf8(b@);
    }
    true
}

// ---------------------------------------------------------------------------
// Searching for a character
// ---------------------------------------------------------------------------

/// The index of the first character in the class; the length where there is none.
pub open spec fn first_index(s: Seq<char>, class: CharClass) -> int
    decreases s.len(),
{
    if s.len() == 0 || class.has(s[0]) {
        0
    } else {
        1 + first_index(s.drop_first(), class)
    }
}

/// The index after the last character in the class; 0 where there is none.
pub open spec fn after_last(s: Seq<char>, class: CharClass) -> int
    decreases s.len(),
{
    if s.len() == 0 || class.has(s.last()) {
        s.len() as int
    } else {
        after_last(s.drop_last(), class)
    }
}

pub proof fn lemma_first_index(s: Seq<char>, class: CharClass)
    ensures
        0 <= first_index(s, class) <= s.len(),
        forall|j: int| 0 <= j < first_index(s, class) ==> !class.has(#[trigger] s[j]),
        first_index(s, class) < s.len() ==> class.has(s[first_index(s, class)]),
    decreases s.len(),
{
    if s.len() != 0 && !class.has(s[0]) {
        let t = s.drop_first();
        lemma_first_index(t, class);
        assert forall|j: int| 0 <= j < first_index(s, class) implies !class.has(
            #[trigger] s[j],
        ) by {
            if j > 0 {
                assert(s[j] == t[j - 1]);
            }
        }
    }
}

pub proof fn lemma_first_index_is(s: Seq<char>, class: CharClass, i: int)
    requires
        0 <= i <= s.len(),
        forall|j: int| 0 <= j < i ==> !class.has(#[trigger] s[j]),
        i < s.len() ==> class.has(s[i]),
    ensures
        first_index(s, class) == i,
{
    lemma_first_index(s, class);
    let k = first_index(s, class);
    if k < i {
        assert(!class.has(s[k]));
    } else if i < k {
        assert(!class.has(s[i]));
    }
}

pub proof fn lemma_after_last(s: Seq<char>, class: CharClass)
    ensures
        0 <= after_last(s, class) <= s.len(),
        forall|j: int| after_last(s, class) <= j < s.len() ==> !class.has(#[trigger] s[j]),
        after_last(s, class) > 0 ==> class.has(s[after_last(s, class) - 1]),
    decreases s.len(),
{
    if s.len() != 0 && !class.has(s.last()) {
        let t = s.drop_last();
        lemma_after_last(t, class);
        assert forall|j: int| after_last(s, class) <= j < s.len() implies !class.has(
            #[trigger] s[j],
        ) by {
            if j < t.len() {
                assert(s[j] == t[j]);
            }
        }
    }
}

pub proof fn lemma_after_last_is(s: Seq<char>, class: CharClass, i: int)
    requires
        0 <= i <= s.len(),
        forall|j: int| i <= j < s.len() ==> !class.has(#[trigger] s[j]),
        i > 0 ==> class.has(s[i - 1]),
    ensures
        after_last(s, class) == i,
{
    lemma_after_last(s, class);
    let k = after_last(s, class);
    if k < i {
        assert(!class.has(s[i - 1]));
    } else if i < k {
        assert(!class.has(s[k - 1]));
    }
}

/// Finds the first character in the class.
pub fn find_class(s: &[char], class: CharClass) -> (r: usize)
    ensures
        r == first_index(s@, class),
        r <= s@.len(),
{
    let n: usize = s.len();
    let mut i: usize = 0;
    while i < n && !class.test(s[i])
        invariant
            i <= n == s@.len(),
            forall|j: int| 0 <= j < i ==> !class.has(#[trigger] s@[j]),
        decreases n - i,
    {
        i += 1;
    }
    proof {
        lemma_first_index_is(s@, class, i as int);
    }
    i
}

/// Finds the end of the last character in the class.
pub fn find_after_last(s: &[char], class: CharClass) -> (r: usize)
    ensures
        r == after_last(s@, class),
        r <= s@.len(),
{
    let n: usize = s.len();
    let mut i: usize = n;
    while i > 0 && !class.test(s[i - 1])
        invariant
            i <= n == s@.len(),
            forall|j: int| i <= j < n ==> !class.has(#[trigger] s@[j]),
        decreases i,
    {
        i -= 1;
    }
    proof {
        lemma_after_last_is(s@, class, i as int);
    }
    i
}

/// Whether a character of the class occurs.
pub open spec fn has_class(s: Seq<char>, class: CharClass) -> bool {
    exists|j: int| 0 <= j < s.len() && class.has(#[trigger] s[j])
}

/// Tests whether a character of the class occurs.
pub fn contains_class(s: &[char], class: CharClass) -> (r: bool)
    ensures
        r == has_class(s@, class),
{
    let i: usize = find_class(s, class);
    proof {
        lemma_first_index(s@, class);
    }
    i < s.len()
}

// ---------------------------------------------------------------------------
// Trimming and splitting
// ---------------------------------------------------------------------------

/// The text without its leading characters of the class.
pub open spec fn trimmed_start(s: Seq<char>, class: CharClass) -> Seq<char>
    decreases s.len(),
{
    if s.len() != 0 && class.has(s[0]) {
        trimmed_start(s.drop_first(), class)
    } else {
        s
    }
}

/// The text without its trailing characters of the class.
pub open spec fn trimmed_end(s: Seq<char>, class: CharClass) -> Seq<char>
    decreases s.len(),
{
    if s.len() != 0 && class.has(s.last()) {
        trimmed_end(s.drop_last(), class)
    } else {
        s
    }
}

/// The text without its leading and trailing white space.
pub open spec fn trimmed(s: Seq<char>) -> Seq<char> {
    trimmed_end(trimmed_start(s, CharClass::Space), CharClass::Space)
}

/// Drops the leading characters of the class.
pub fn trim_start(s: &[char], class: CharClass) -> (r: Vec<char>)
    ensures
        r@ == trimmed_start(s@, class),
{
    let n: usize = s.len();
    let mut i: usize = 0;
    assert(s@.skip(0) =~= s@);
    while i < n && class.test(s[i])
        invariant
            i <= n == s@.len(),
            trimmed_start(s@, class) == trimmed_start(s@.skip(i as int), class),
        decreases n - i,
    {
        assert(s@.skip(i as int).drop_first() =~= s@.skip(i + 1));
        i += 1;
    }
    assert(s@.skip(i as int) =~= s@.subrange(i as int, n as int));
    part(s, i, n)
}

/// Drops the trailing characters of the class.
pub fn trim_end(s: &[char], class: CharClass) -> (r: Vec<char>)
    ensures
        r@ == trimmed_end(s@, class),
{
    let n: usize = s.len();
    let mut i: usize = n;
    assert(s@.take(n as int) =~= s@);
    while i > 0 && class.test(s[i - 1])
        invariant
            i <= n == s@.len(),
            trimmed_end(s@, class) == trimmed_end(s@.take(i as int), class),
        decreases i,
    {
        assert(s@.take(i as int).drop_last() =~= s@.take(i - 1));
        i -= 1;
    }
    assert(s@.take(i as int) =~= s@.subrange(0, i as int));
    part(s, 0, i)
}

/// Drops leading and trailing white space.
pub fn trim(s: &[char]) -> (r: Vec<char>)
    ensures
        r@ == trimmed(s@),
{
    let t = trim_start(s, CharClass::Space);
    trim_end(&t, CharClass::Space)
}

/// The text without its leading and trailing characters of the class.
pub open spec fn trimmed_of(s: Seq<char>, class: CharClass) -> Seq<char> {
    trimmed_end(trimmed_start(s, class), class)
}

/// Drops leading and trailing characters of the class.
pub fn trim_class(s: &[char], class: CharClass) -> (r: Vec<char>)
    ensures
        r@ == trimmed_of(s@, class),
{
    let t = trim_start(s, class);
    trim_end(&t, class)
}

/// The first run of characters that are not white space.
pub open spec fn first_word(s: Seq<char>) -> Option<Seq<char>> {
    let words = runs(s, CharClass::Space);
    if words.len() == 0 {
        None
    } else {
        Some(words[0])
    }
}

/// The pieces between the characters of the class, empty ones included.
pub open spec fn pieces(s: Seq<char>, class: CharClass) -> Seq<Seq<char>>
    decreases s.len(),
{
    let i = first_index(s, class);
    if 0 <= i < s.len() {
        seq![s.take(i)] + pieces(s.skip(i + 1), class)
    } else {
        seq![s]
    }
}

/// Splits at every character of the class.
pub fn split(s: &[char], class: CharClass) -> (r: Vec<Vec<char>>)
    ensures
        views(r@) == pieces(s@, class),
{
    let n: usize = s.len();
    let mut out: Vec<Vec<char>> = Vec::new();
    let mut from: usize = 0;
    assert(s@.skip(0) =~= s@);
    assert(views(out@) + pieces(s@, class) =~= pieces(s@, class));
    loop
        invariant
            from <= n == s@.len(),
            views(out@) + pieces(s@.skip(from as int), class) == pieces(s@, class),
        decreases n - from,
    {
        let ghost rest = s@.skip(from as int);
        let tail = slice_subrange(s, from, n);
        assert(tail@ =~= rest);
        let i: usize = find_class(tail, class);
        let piece = part(tail, 0, i);
        assert(piece@ =~= rest.take(i as int));
        let ghost before = out@;
        out.push(piece);
        assert(views(out@) =~= views(before).push(rest.take(i as int)));
        if i == n - from {
            assert(rest.take(i as int) =~= rest);
            assert(views(out@) =~= views(before) + pieces(rest, class));
            return out;
        }
        assert(rest.skip(i + 1) =~= s@.skip(from + i + 1));
        assert(views(before) + (seq![rest.take(i as int)] + pieces(rest.skip(i + 1), class)) =~= views(
            out@,
        ) + pieces(rest.skip(i + 1), class));
        from = from + i + 1;
    }
}

/// The maximal runs of characters outside the class.
pub open spec fn runs(s: Seq<char>, class: CharClass) -> Seq<Seq<char>>
    decreases s.len(),
{
    if s.len() == 0 {
        Seq::empty()
    } else if class.has(s[0]) {
        runs(s.drop_first(), class)
    } else {
        let i = first_index(s, class);
        if 0 < i <= s.len() {
            seq![s.take(i)] + runs(s.skip(i), class)
        } else {
            Seq::empty()
        }
    }
}

/// Splits into the non-empty pieces between the characters of the class.
pub fn split_runs(s: &[char], class: CharClass) -> (r: Vec<Vec<char>>)
    ensures
        views(r@) == runs(s@, class),
{
    let n: usize = s.len();
    let mut out: Vec<Vec<char>> = Vec::new();
    let mut from: usize = 0;
    assert(s@.skip(0) =~= s@);
    assert(views(out@) + runs(s@, class) =~= runs(s@, class));
    while from < n
        invariant
            from <= n == s@.len(),
            views(out@) + runs(s@.skip(from as int), class) == runs(s@, class),
        decreases n - from,
    {
        let ghost rest = s@.skip(from as int);
        if class.test(s[from]) {
            assert(rest.drop_first() =~= s@.skip(from + 1));
            from += 1;
        } else {
            let tail = slice_subrange(s, from, n);
            assert(tail@ =~= rest);
            let i: usize = find_class(tail, class);
            proof {
                lemma_first_index(rest, class);
                assert(rest[0] == s@[from as int]);
            }
            let piece = part(tail, 0, i);
            assert(piece@ =~= rest.take(i as int));
            let ghost before = out@;
            out.push(piece);
            assert(views(out@) =~= views(before).push(rest.take(i as int)));
            assert(rest.skip(i as int) =~= s@.skip(from + i));
            assert(views(before) + (seq![rest.take(i as int)] + runs(rest.skip(i as int), class))
                =~= views(out@) + runs(rest.skip(i as int), class));
            from = from + i;
        }
    }
    assert(s@.skip(from as int).len() == 0);
    assert(views(out@) + runs(s@.skip(from as int), class) =~= views(out@));
    out
}

/// One line: without the carriage return before its line feed.
pub open spec fn without_return(s: Seq<char>) -> Seq<char> {
    if s.len() != 0 && s.last() == '\r' {
        s.drop_last()
    } else {
        s
    }
}

/// The lines of a text, without their line ends. A line feed ends a line; a carriage return
/// right before it belongs to the line end; nothing follows a final line feed.
pub open spec fn lines(s: Seq<char>) -> Seq<Seq<char>>
    decreases s.len(),
{
    let i = first_index(s, CharClass::Is('\n'));
    if s.len() == 0 {
        Seq::empty()
    } else if 0 <= i < s.len() {
        seq![without_return(s.take(i))] + lines(s.skip(i + 1))
    } else {
        seq![s]
    }
}

/// Splits a text into lines.
pub fn split_lines(s: &[char]) -> (r: Vec<Vec<char>>)
    ensures
        views(r@) == lines(s@),
{
    let n: usize = s.len();
    let mut out: Vec<Vec<char>> = Vec::new();
    let mut from: usize = 0;
    assert(s@.skip(0) =~= s@);
    assert(views(out@) + lines(s@) =~= lines(s@));
    while from < n
        invariant
            from <= n == s@.len(),
            views(out@) + lines(s@.skip(from as int)) == lines(s@),
        decreases n - from,
    {
        let ghost rest = s@.skip(from as int);
        let tail = slice_subrange(s, from, n);
        assert(tail@ =~= rest);
        let i: usize = find_class(tail, CharClass::Is('\n'));
        let ghost before = out@;
        if i == n - from {
            let piece = part(tail, 0, i);
            assert(piece@ =~= rest);
            out.push(piece);
            assert(views(out@) =~= views(before).push(rest));
            assert(views(out@) =~= views(before) + lines(rest));
            return out;
        }
        let end: usize = if i > 0 && tail[i - 1] == '\r' {
            i - 1
        } else {
            i
        };
        let piece = part(tail, 0, end);
        assert(piece@ =~= without_return(rest.take(i as int)));
        out.push(piece);
        assert(views(out@) =~= views(before).push(without_return(rest.take(i as int))));
        assert(rest.skip(i + 1) =~= s@.skip(from + i + 1));
        assert(views(before) + (seq![without_return(rest.take(i as int))] + lines(rest.skip(i + 1)))
            =~= views(out@) + lines(rest.skip(i + 1)));
        from = from + i + 1;
    }
    assert(s@.skip(from as int).len() == 0);
    assert(views(out@) + lines(s@.skip(from as int)) =~= views(out@));
    out
}

/// The texts one after the other with a separator between them.
pub open spec fn joined(parts: Seq<Seq<char>>, sep: Seq<char>) -> Seq<char>
    decreases parts.len(),
{
    if parts.len() == 0 {
        Seq::empty()
    } else if parts.len() == 1 {
        parts[0]
    } else {
        joined(parts.drop_last(), sep) + sep + parts.last()
    }
}

/// Joins texts with a separator.
pub fn join(parts: &[Vec<char>], sep: &[char]) -> (r: Vec<char>)
    ensures
        r@ == joined(views(parts@), sep@),
{
    let mut out: Vec<char> = Vec::new();
    let n: usize = parts.len();
    for i in 0..n
        invariant
            n == parts@.len(),
            out@ == joined(views(parts@).take(i as int), sep@),
    {
        if i > 0 {
            append(&mut out, sep);
        }
        append(&mut out, &parts[i]);
        assert(views(parts@).take(i + 1).drop_last() =~= views(parts@).take(i as int));
        assert(i == 0 ==> out@ =~= parts@[0]@);
    }
    assert(views(parts@).take(n as int) =~= views(parts@));
    out
}

// ---------------------------------------------------------------------------
// Searching for a text
// ---------------------------------------------------------------------------

/// Whether `needle` stands in `s` at index `i`.
pub open spec fn occurs_at(s: Seq<char>, needle: Seq<char>, i: int) -> bool {
    &&& 0 <= i
    &&& i + needle.len() <= s.len()
    &&& s.subrange(i, i + needle.len()) == needle
}

/// Whether `needle` occurs in `s`.
pub open spec fn occurs(s: Seq<char>, needle: Seq<char>) -> bool {
    exists|i: int| #[trigger] occurs_at(s, needle, i)
}

/// Whether `s` starts with `p`.
pub open spec fn has_prefix(s: Seq<char>, p: Seq<char>) -> bool {
    occurs_at(s, p, 0)
}

/// Whether `s` ends with `p`.
pub open spec fn has_suffix(s: Seq<char>, p: Seq<char>) -> bool {
    occurs_at(s, p, s.len() - p.len())
}

/// Whether `i` is where `needle` first occurs in `s`.
pub open spec fn first_occurrence(s: Seq<char>, needle: Seq<char>, i: int) -> bool {
    &&& occurs_at(s, needle, i)
    &&& forall|j: int| 0 <= j < i ==> !#[trigger] occurs_at(s, needle, j)
}

/// Whether `i` is where `needle` last occurs in `s`.
pub open spec fn last_occurrence(s: Seq<char>, needle: Seq<char>, i: int) -> bool {
    &&& occurs_at(s, needle, i)
    &&& forall|j: int| i < j ==> !#[trigger] occurs_at(s, needle, j)
}

/// Where `needle` first occurs in `s`.
pub open spec fn find_at(s: Seq<char>, needle: Seq<char>) -> Option<int> {
    if occurs(s, needle) {
        Some(choose|i: int| first_occurrence(s, needle, i))
    } else {
        None
    }
}

/// Where `needle` last occurs in `s`.
pub open spec fn rfind_at(s: Seq<char>, needle: Seq<char>) -> Option<int> {
    if occurs(s, needle) {
        Some(choose|i: int| last_occurrence(s, needle, i))
    } else {
        None
    }
}

pub proof fn lemma_find_at(s: Seq<char>, needle: Seq<char>, i: int)
    requires
        first_occurrence(s, needle, i),
    ensures
        find_at(s, needle) == Some(i),
{
    assert(occurs_at(s, needle, i));
    let k = choose|k: int| first_occurrence(s, needle, k);
    assert(first_occurrence(s, needle, k));
    if i < k {
        assert(!occurs_at(s, needle, i));
    } else if k < i {
        assert(!occurs_at(s, needle, k));
    }
}

pub proof fn lemma_rfind_at(s: Seq<char>, needle: Seq<char>, i: int)
    requires
        last_occurrence(s, needle, i),
    ensures
        rfind_at(s, needle) == Some(i),
{
    assert(occurs_at(s, needle, i));
    let k = choose|k: int| last_occurrence(s, needle, k);
    assert(last_occurrence(s, needle, k));
    if i < k {
        assert(!occurs_at(s, needle, k));
    } else if k < i {
        assert(!occurs_at(s, needle, i));
    }
}

/// An optional index, as a number.
pub open spec fn index_opt(r: Option<usize>) -> Option<int> {
    match r {
        Some(i) => Some(i as int),
        None => None,
    }
}

/// Tests for a text at an index.
pub fn stands_at(s: &[char], needle: &[char], i: usize) -> (r: bool)
    requires
        i <= s@.len(),
    ensures
        r == occurs_at(s@, needle@, i as int),
{
    let n: usize = needle.len();
    let m: usize = s.len();
    if n > m - i {
        return false;
    }
    for k in 0..n
        invariant
            n == needle@.len(),
            i + n <= m == s@.len(),
            forall|j: int| 0 <= j < k ==> s@[i + j] == needle@[j],
    {
        if s[i + k] != needle[k] {
            assert(s@.subrange(i as int, i + n)[k as int] != needle@[k as int]);
            return false;
        }
    }
    assert(s@.subrange(i as int, i + n) =~= needle@);
    true
}

/// Tests for a leading text.
pub fn starts_with(s: &[char], p: &str) -> (r: bool)
    ensures
        r == has_prefix(s@, p@),
{
    let p = chars_of(p);
    stands_at(s, &p, 0)
}

/// Tests for a trailing text.
pub fn ends_with(s: &[char], p: &str) -> (r: bool)
    ensures
        r == has_suffix(s@, p@),
{
    let p = chars_of(p);
    if p.len() > s.len() {
        return false;
    }
    stands_at(s, &p, s.len() - p.len())
}

/// Where a text first occurs in `s`.
pub fn find(s: &[char], needle: &[char]) -> (r: Option<usize>)
    ensures
        index_opt(r) == find_at(s@, needle@),
        r matches Some(i) ==> occurs_at(s@, needle@, i as int),
{
    let n: usize = s.len();
    let mut i: usize = 0;
    loop
        invariant
            i <= n == s@.len(),
            forall|j: int| 0 <= j < i ==> !#[trigger] occurs_at(s@, needle@, j),
        decreases n - i,
    {
        if stands_at(s, needle, i) {
            proof {
                lemma_find_at(s@, needle@, i as int);
            }
            return Some(i);
        }
        if i == n {
            return None;
        }
        i += 1;
    }
}

/// Where a text last occurs in `s`.
pub fn rfind(s: &[char], needle: &[char]) -> (r: Option<usize>)
    ensures
        index_opt(r) == rfind_at(s@, needle@),
        r matches Some(i) ==> occurs_at(s@, needle@, i as int),
{
    let n: usize = s.len();
    let mut i: usize = n;
    loop
        invariant
            i <= n == s@.len(),
            forall|j: int| i < j ==> !#[trigger] occurs_at(s@, needle@, j),
        decreases i,
    {
        if stands_at(s, needle, i) {
            proof {
                lemma_rfind_at(s@, needle@, i as int);
            }
            return Some(i);
        }
        if i == 0 {
            return None;
        }
        i -= 1;
    }
}

/// Whether a text occurs in `s`.
pub fn contains(s: &[char], needle: &str) -> (r: bool)
    ensures
        r == occurs(s@, needle@),
{
    let needle = chars_of(needle);
    match find(s, &needle) {
        Some(i) => true,
        None => false,
    }
}

// ---------------------------------------------------------------------------
// Case, length, tokens
// ---------------------------------------------------------------------------

/// ASCII lower case.
pub fn ascii_lower_of(s: &[char]) -> (r: Vec<char>)
    ensures
        r@ == ascii_lowered(s@),
{
    let mut out: Vec<char> = Vec::new();
    let n: usize = s.len();
    for i in 0..n
        invariant
            n == s@.len(),
            out@ == ascii_lowered(s@.take(i as int)),
    {
        let c = s[i];
        let d: char = if 'A' <= c && c <= 'Z' {
            ((c as u8) + 32) as char
        } else {
            c
        };
        assert(d == ascii_lower(c));
        out.push(d);
        assert(ascii_lowered(s@.take(i + 1)) =~= ascii_lowered(s@.take(i as int)).push(
            ascii_lower(c),
        ));
    }
    assert(s@.take(n as int) =~= s@);
    out
}

/// Lower case.
pub fn lower(s: &[char]) -> (r: Vec<char>)
    ensures
        r@ == lowered(s@),
{
    let t = string_of(s);
    let l = t.as_str().to_lowercase();
    chars_of(l.as_str())
}

/// The length in UTF-8.
pub open spec fn utf8_len(s: Seq<char>) -> nat {
    vstd::utf8::encode_utf8(s).len()
}

/// The length in UTF-8.
pub fn byte_len(s: &[char]) -> (r: usize)
    ensures
        r == utf8_len(s@),
{
    let t = string_of(s);
    t.as_str().as_bytes().len()
}

/// The first `n` characters, or all of them where there are fewer.
pub open spec fn first_chars(s: Seq<char>, n: int) -> Seq<char> {
    if 0 <= n <= s.len() {
        s.take(n)
    } else {
        s
    }
}

/// The first `n` items of a list, or all of them where there are fewer.
pub open spec fn first_n<T>(s: Seq<T>, n: int) -> Seq<T> {
    if 0 <= n <= s.len() {
        s.take(n)
    } else {
        s
    }
}

/// Takes the first `n` characters.
pub fn take(s: &[char], n: usize) -> (r: Vec<char>)
    ensures
        r@ == first_chars(s@, n as int),
{
    if n <= s.len() {
        assert(s@.take(n as int) =~= s@.subrange(0, n as int));
        part(s, 0, n)
    } else {
        assert(s@.subrange(0, s@.len() as int) =~= s@);
        part(s, 0, s.len())
    }
}

/// The tokens among runs of alphanumeric characters: those longer than one byte, lowered.
pub open spec fn kept_tokens(words: Seq<Seq<char>>) -> Seq<Seq<char>>
    decreases words.len(),
{
    if words.len() == 0 {
        Seq::empty()
    } else {
        let rest = kept_tokens(words.drop_last());
        if utf8_len(words.last()) > 1 {
            rest.push(lowered(words.last()))
        } else {
            rest
        }
    }
}

/// The tokens of a text: its runs of alphanumeric characters longer than one byte, in lower
/// case.
pub open spec fn tokens(s: Seq<char>) -> Seq<Seq<char>> {
    kept_tokens(runs(s, CharClass::NonWord))
}

/// Splits a text into tokens.
pub fn tokenize(s: &[char]) -> (r: Vec<Vec<char>>)
    ensures
        views(r@) == tokens(s@),
{
    let words = split_runs(s, CharClass::NonWord);
    let mut out: Vec<Vec<char>> = Vec::new();
    let n: usize = words.len();
    let ghost ws = views(words@);
    for i in 0..n
        invariant
            n == words@.len(),
            ws == views(words@),
            views(out@) == kept_tokens(ws.take(i as int)),
    {
        assert(ws.take(i + 1).drop_last() =~= ws.take(i as int));
        assert(ws.take(i + 1).last() == words@[i as int]@);
        if byte_len(&words[i]) > 1 {
            let t = lower(&words[i]);
            let ghost before = out@;
            out.push(t);
            assert(views(out@) =~= views(before).push(t@));
        }
    }
    assert(ws.take(n as int) =~= ws);
    out
}

// ---------------------------------------------------------------------------
// Order
// ---------------------------------------------------------------------------

/// Lexicographic order by code point, which is the order of the UTF-8 bytes.
pub open spec fn text_lt(a: Seq<char>, b: Seq<char>) -> bool
    decreases a.len(),
{
    if b.len() == 0 {
        false
    } else if a.len() == 0 {
        true
    } else if a[0] != b[0] {
        a[0] < b[0]
    } else {
        text_lt(a.drop_first(), b.drop_first())
    }
}

pub proof fn lemma_text_lt_irreflexive(a: Seq<char>)
    ensures
        !text_lt(a, a),
    decreases a.len(),
{
    if a.len() != 0 {
        lemma_text_lt_irreflexive(a.drop_first());
    }
}

pub proof fn lemma_text_lt_transitive(a: Seq<char>, b: Seq<char>, c: Seq<char>)
    requires
        text_lt(a, b),
        text_lt(b, c),
    ensures
        text_lt(a, c),
    decreases a.len(),
{
    if a.len() != 0 && a[0] == b[0] && b[0] == c[0] {
        lemma_text_lt_transitive(a.drop_first(), b.drop_first(), c.drop_first());
    }
}

pub proof fn lemma_text_lt_total(a: Seq<char>, b: Seq<char>)
    ensures
        text_lt(a, b) || text_lt(b, a) || a == b,
    decreases a.len(),
{
    if a.len() != 0 && b.len() != 0 && a[0] == b[0] {
        lemma_text_lt_total(a.drop_first(), b.drop_first());
        if a.drop_first() == b.drop_first() {
            assert(a =~= seq![a[0]] + a.drop_first());
            assert(b =~= seq![b[0]] + b.drop_first());
        }
    } else if a.len() == 0 && b.len() == 0 {
        assert(a =~= b);
    }
}

/// Whether one text comes before another.
pub fn less(a: &[char], b: &[char]) -> (r: bool)
    ensures
        r == text_lt(a@, b@),
{
    let n: usize = a.len();
    let m: usize = b.len();
    let mut i: usize = 0;
    assert(a@.skip(0) =~= a@);
    assert(b@.skip(0) =~= b@);
    while i < n && i < m && a[i] == b[i]
        invariant
            i <= n == a@.len(),
            i <= m == b@.len(),
            text_lt(a@, b@) == text_lt(a@.skip(i as int), b@.skip(i as int)),
        decreases n - i,
    {
        assert(a@.skip(i as int).drop_first() =~= a@.skip(i + 1));
        assert(b@.skip(i as int).drop_first() =~= b@.skip(i + 1));
        i += 1;
    }
    i < m && (i == n || a[i] < b[i])
}

/// Whether one string comes before another.
pub fn less_str(a: &str, b: &str) -> (r: bool)
    ensures
        r == text_lt(a@, b@),
{
    let x = chars_of(a);
    let y = chars_of(b);
    less(&x, &y)
}

// ---------------------------------------------------------------------------
// Laws
// ---------------------------------------------------------------------------

/// Between two separators, or the ends of the text, stands a piece; none is left out.
pub proof fn every_piece_is_found(s: Seq<char>, c: char, a: int, b: int)
    requires
        0 <= a <= b <= s.len(),
        a == 0 || s[a - 1] == c,
        b == s.len() || s[b] == c,
        forall|j: int| a <= j < b ==> #[trigger] s[j] != c,
    ensures
        pieces(s, CharClass::Is(c)).contains(s.subrange(a, b)),
    decreases s.len(),
{
    let class = CharClass::Is(c);
    lemma_first_index(s, class);
    let i = first_index(s, class);
    let all = pieces(s, class);
    if i == s.len() {
        assert(a == 0 && b == s.len());
        assert(s.subrange(a, b) =~= s);
        assert(all[0] == s);
    } else if a == 0 {
        assert(b == i) by {
            if b < i {
                assert(!class.has(s[b]));
            }
        }
        assert(s.subrange(a, b) =~= s.take(i));
        assert(all[0] == s.take(i));
    } else {
        assert(i <= a - 1) by {
            if a - 1 < i {
                assert(!class.has(s[a - 1]));
            }
        }
        let t = s.skip(i + 1);
        assert forall|j: int| a - i - 1 <= j < b - i - 1 implies #[trigger] t[j] != c by {
            assert(t[j] == s[j + i + 1]);
        }
        every_piece_is_found(t, c, a - i - 1, b - i - 1);
        assert(t.subrange(a - i - 1, b - i - 1) =~= s.subrange(a, b));
        let rest = pieces(t, class);
        let k = choose|k: int| 0 <= k < rest.len() && rest[k] == s.subrange(a, b);
        assert(all[k + 1] == rest[k]);
    }
}

/// The pieces are what stands between the separators and nothing else: with the separators
/// between them they give the text again, and none of them holds one.
pub proof fn pieces_give_the_text(s: Seq<char>, c: char)
    ensures
        joined(pieces(s, CharClass::Is(c)), seq![c]) == s,
        pieces(s, CharClass::Is(c)).len() >= 1,
        forall|k: int, j: int|
            0 <= k < pieces(s, CharClass::Is(c)).len() && 0 <= j < pieces(s, CharClass::Is(c))[k].len()
                ==> #[trigger] pieces(s, CharClass::Is(c))[k][j] != c,
    decreases s.len(),
{
    let class = CharClass::Is(c);
    lemma_first_index(s, class);
    let i = first_index(s, class);
    let all = pieces(s, class);
    if i < s.len() {
        let t = s.skip(i + 1);
        let rest = pieces(t, class);
        pieces_give_the_text(t, c);
        lemma_joined_first(s.take(i), rest, seq![c]);
        assert(s =~= s.take(i) + seq![c] + t);
        assert forall|k: int, j: int| 0 <= k < all.len() && 0 <= j < all[k].len() implies
            #[trigger] all[k][j] != c by {
            if k > 0 {
                assert(all[k] == rest[k - 1]);
                assert(rest[k - 1][j] != c);
            } else {
                assert(all[k][j] == s[j]);
            }
        }
    } else {
        assert(all[0] == s);
    }
}

/// The first of several joined texts comes first.
pub proof fn lemma_joined_first(w: Seq<char>, rest: Seq<Seq<char>>, sep: Seq<char>)
    requires
        rest.len() != 0,
    ensures
        joined(seq![w] + rest, sep) == w + sep + joined(rest, sep),
    decreases rest.len(),
{
    let all = seq![w] + rest;
    assert(all.drop_last() =~= seq![w] + rest.drop_last());
    assert(all.last() == rest.last());
    if rest.len() == 1 {
        assert(all.drop_last() =~= seq![w]);
        assert(joined(seq![w], sep) == w);
        assert(joined(all, sep) == joined(all.drop_last(), sep) + sep + all.last());
        assert(joined(all, sep) =~= w + sep + rest[0]);
    } else {
        lemma_joined_first(w, rest.drop_last(), sep);
        assert(joined(all, sep) =~= w + sep + joined(rest, sep));
    }
}

/// A maximal run of characters outside a class is found; none is left out.
pub proof fn every_run_is_found(s: Seq<char>, class: CharClass, a: int, b: int)
    requires
        0 <= a < b <= s.len(),
        a == 0 || class.has(s[a - 1]),
        b == s.len() || class.has(s[b]),
        forall|j: int| a <= j < b ==> !class.has(#[trigger] s[j]),
    ensures
        runs(s, class).contains(s.subrange(a, b)),
    decreases s.len(),
{
    let all = runs(s, class);
    if class.has(s[0]) {
        let t = s.drop_first();
        assert(a > 0);
        assert forall|j: int| a - 1 <= j < b - 1 implies !class.has(#[trigger] t[j]) by {
            assert(t[j] == s[j + 1]);
        }
        every_run_is_found(t, class, a - 1, b - 1);
        assert(t.subrange(a - 1, b - 1) =~= s.subrange(a, b));
    } else {
        lemma_first_index(s, class);
        let i = first_index(s, class);
        let t = s.skip(i);
        let rest = runs(t, class);
        assert(all == seq![s.take(i)] + rest);
        if a == 0 {
            assert(b == i) by {
                if b < i {
                    assert(!class.has(s[b]));
                }
            }
            assert(s.subrange(a, b) =~= s.take(i));
            assert(all[0] == s.take(i));
        } else {
            assert(i <= a - 1) by {
                if a - 1 < i {
                    assert(!class.has(s[a - 1]));
                }
            }
            assert forall|j: int| a - i <= j < b - i implies !class.has(#[trigger] t[j]) by {
                assert(t[j] == s[j + i]);
            }
            every_run_is_found(t, class, a - i, b - i);
            assert(t.subrange(a - i, b - i) =~= s.subrange(a, b));
            let k = choose|k: int| 0 <= k < rest.len() && rest[k] == s.subrange(a, b);
            assert(all[k + 1] == rest[k]);
        }
    }
}

/// The runs leave out nothing but characters of the class: one after the other they are the
/// text without these.
pub proof fn runs_keep_the_rest(s: Seq<char>, class: CharClass)
    ensures
        runs(s, class).flatten() == s.filter(|c: char| !class.has(c)),
        forall|k: int| 0 <= k < runs(s, class).len() ==> (#[trigger] runs(s, class)[k]).len() > 0,
    decreases s.len(),
{
    let keep = |c: char| !class.has(c);
    let all = runs(s, class);
    reveal(Seq::filter);
    if s.len() == 0 {
        assert(all.flatten() =~= s.filter(keep));
    } else if class.has(s[0]) {
        runs_keep_the_rest(s.drop_first(), class);
        assert(s =~= seq![s[0]] + s.drop_first());
        Seq::filter_distributes_over_add(seq![s[0]], s.drop_first(), keep);
        lemma_filter_one(s[0], keep);
        assert(s.filter(keep) =~= s.drop_first().filter(keep));
    } else {
        lemma_first_index(s, class);
        let i = first_index(s, class);
        let rest = runs(s.skip(i), class);
        runs_keep_the_rest(s.skip(i), class);
        assert(all == seq![s.take(i)] + rest);
        assert(all.drop_first() =~= rest);
        assert(all.first() == s.take(i));
        assert(all.flatten() == s.take(i) + rest.flatten());
        assert(s =~= s.take(i) + s.skip(i));
        Seq::filter_distributes_over_add(s.take(i), s.skip(i), keep);
        lemma_filter_all(s.take(i), keep);
        assert forall|k: int| 0 <= k < all.len() implies (#[trigger] all[k]).len() > 0 by {
            if k > 0 {
                assert(all[k] == rest[k - 1]);
            }
        }
    }
}

proof fn lemma_filter_one(c: char, keep: spec_fn(char) -> bool)
    ensures
        seq![c].filter(keep) == (if keep(c) {
            seq![c]
        } else {
            Seq::empty()
        }),
{
    reveal(Seq::filter);
    assert(seq![c].drop_last() =~= Seq::empty());
    assert(Seq::<char>::empty().filter(keep) =~= Seq::empty());
    assert(seq![c].filter(keep) =~= (if keep(c) {
        seq![c]
    } else {
        Seq::empty()
    }));
}

proof fn lemma_filter_all(s: Seq<char>, keep: spec_fn(char) -> bool)
    requires
        forall|j: int| 0 <= j < s.len() ==> keep(#[trigger] s[j]),
    ensures
        s.filter(keep) == s,
    decreases s.len(),
{
    reveal(Seq::filter);
    if s.len() != 0 {
        assert forall|j: int| 0 <= j < s.drop_last().len() implies keep(
            #[trigger] s.drop_last()[j],
        ) by {
            assert(keep(s[j]));
        }
        lemma_filter_all(s.drop_last(), keep);
        assert(keep(s[s.len() - 1]));
        assert(s.filter(keep) =~= s);
    }
}

/// A line stands between two line feeds, or the ends of the text, and is found without the
/// carriage return that belongs to its end.
pub proof fn every_line_is_found(s: Seq<char>, a: int, b: int)
    requires
        0 <= a <= b <= s.len(),
        a == 0 || s[a - 1] == '\n',
        b == s.len() && a < b || b < s.len() && s[b] == '\n',
        forall|j: int| a <= j < b ==> #[trigger] s[j] != '\n',
    ensures
        b == s.len() ==> lines(s).contains(s.subrange(a, b)),
        b < s.len() && (a == b || s[b - 1] != '\r') ==> lines(s).contains(s.subrange(a, b)),
        b < s.len() && a < b && s[b - 1] == '\r' ==> lines(s).contains(s.subrange(a, b - 1)),
    decreases s.len(),
{
    let class = CharClass::Is('\n');
    lemma_first_index(s, class);
    let i = first_index(s, class);
    let all = lines(s);
    if i == s.len() {
        assert(a == 0 && b == s.len());
        assert(s.subrange(a, b) =~= s);
        assert(all[0] == s);
    } else if a == 0 {
        assert(b == i) by {
            if b < i {
                assert(!class.has(s[b]));
            }
        }
        assert(s.subrange(a, b) =~= s.take(i));
        assert(all[0] == without_return(s.take(i)));
        if a < b && s[b - 1] == '\r' {
            assert(s.subrange(a, b - 1) =~= s.take(i).drop_last());
        }
    } else {
        assert(i <= a - 1) by {
            if a - 1 < i {
                assert(!class.has(s[a - 1]));
            }
        }
        let t = s.skip(i + 1);
        assert forall|j: int| a - i - 1 <= j < b - i - 1 implies #[trigger] t[j] != '\n' by {
            assert(t[j] == s[j + i + 1]);
        }
        every_line_is_found(t, a - i - 1, b - i - 1);
        assert(t.subrange(a - i - 1, b - i - 1) =~= s.subrange(a, b));
        let rest = lines(t);
        assert(all == seq![without_return(s.take(i))] + rest);
        if b < s.len() && a < b && s[b - 1] == '\r' {
            assert(t.subrange(a - i - 1, b - i - 2) =~= s.subrange(a, b - 1));
            let k = choose|k: int| 0 <= k < rest.len() && rest[k] == s.subrange(a, b - 1);
            assert(all[k + 1] == rest[k]);
        } else {
            let k = choose|k: int| 0 <= k < rest.len() && rest[k] == s.subrange(a, b);
            assert(all[k + 1] == rest[k]);
        }
    }
}

proof fn lemma_trimmed_start(s: Seq<char>, class: CharClass) -> (a: int)
    ensures
        0 <= a <= s.len(),
        trimmed_start(s, class) == s.skip(a),
        forall|j: int| 0 <= j < a ==> class.has(#[trigger] s[j]),
        a < s.len() ==> !class.has(s[a]),
    decreases s.len(),
{
    if s.len() != 0 && class.has(s[0]) {
        let t = s.drop_first();
        let a = lemma_trimmed_start(t, class);
        assert(t.skip(a) =~= s.skip(a + 1));
        assert forall|j: int| 0 <= j < a + 1 implies class.has(#[trigger] s[j]) by {
            if j > 0 {
                assert(t[j - 1] == s[j]);
            }
        }
        a + 1
    } else {
        assert(s.skip(0) =~= s);
        0
    }
}

proof fn lemma_trimmed_end(s: Seq<char>, class: CharClass) -> (b: int)
    ensures
        0 <= b <= s.len(),
        trimmed_end(s, class) == s.take(b),
        forall|j: int| b <= j < s.len() ==> class.has(#[trigger] s[j]),
        b > 0 ==> !class.has(s[b - 1]),
    decreases s.len(),
{
    if s.len() != 0 && class.has(s.last()) {
        let t = s.drop_last();
        let b = lemma_trimmed_end(t, class);
        assert(t.take(b) =~= s.take(b));
        assert forall|j: int| b <= j < s.len() implies class.has(#[trigger] s[j]) by {
            if j < t.len() {
                assert(t[j] == s[j]);
            }
        }
        b
    } else {
        assert(s.take(s.len() as int) =~= s);
        s.len() as int
    }
}

/// Trimming takes white space off the ends and nothing else: what is left runs from the first
/// to the last character that is not white space.
pub proof fn trimming_takes_only_space(s: Seq<char>) -> (r: (int, int))
    ensures
        0 <= r.0 <= r.1 <= s.len(),
        trimmed(s) == s.subrange(r.0, r.1),
        forall|j: int| 0 <= j < s.len() && !(r.0 <= j < r.1) ==> is_space(#[trigger] s[j]),
        r.0 < r.1 ==> !is_space(s[r.0]) && !is_space(s[r.1 - 1]),
{
    let a = lemma_trimmed_start(s, CharClass::Space);
    let t = s.skip(a);
    let b = lemma_trimmed_end(t, CharClass::Space);
    assert(t.take(b) =~= s.subrange(a, a + b));
    assert forall|j: int| 0 <= j < s.len() && !(a <= j < a + b) implies is_space(
        #[trigger] s[j],
    ) by {
        if j >= a + b {
            assert(t[j - a] == s[j]);
            assert(CharClass::Space.has(t[j - a]));
        } else {
            assert(CharClass::Space.has(s[j]));
        }
    }
    if 0 < b {
        assert(t[0] == s[a]);
        assert(t[b - 1] == s[a + b - 1]);
    }
    (a, a + b)
}

/// A maximal run of word characters longer than one byte is a token, in lower case; none is
/// left out.
pub proof fn every_word_is_a_token(s: Seq<char>, a: int, b: int)
    requires
        0 <= a < b <= s.len(),
        a == 0 || !is_word(s[a - 1]),
        b == s.len() || !is_word(s[b]),
        forall|j: int| a <= j < b ==> is_word(#[trigger] s[j]),
        vstd::utf8::encode_utf8(s.subrange(a, b)).len() > 1,
    ensures
        tokens(s).contains(lowered(s.subrange(a, b))),
{
    assert forall|j: int| a <= j < b implies !CharClass::NonWord.has(#[trigger] s[j]) by {}
    every_run_is_found(s, CharClass::NonWord, a, b);
    let words = runs(s, CharClass::NonWord);
    let k = choose|k: int| 0 <= k < words.len() && words[k] == s.subrange(a, b);
    lemma_kept_token(words, k);
}

proof fn lemma_kept_token(words: Seq<Seq<char>>, k: int)
    requires
        0 <= k < words.len(),
        utf8_len(words[k]) > 1,
    ensures
        kept_tokens(words).contains(lowered(words[k])),
    decreases words.len(),
{
    let init = words.drop_last();
    let all = kept_tokens(words);
    if k < init.len() {
        assert(init[k] == words[k]);
        lemma_kept_token(init, k);
        let before = kept_tokens(init);
        let i = choose|i: int| 0 <= i < before.len() && before[i] == lowered(words[k]);
        assert(all[i] == before[i]);
    } else {
        assert(all[all.len() - 1] == lowered(words[k]));
    }
}

/// Every token is a word of the text longer than one byte, in lower case, and they stand in
/// the order of the words.
pub proof fn tokens_are_the_words(s: Seq<char>)
    ensures
        tokens(s) == runs(s, CharClass::NonWord).filter_map(
            |w: Seq<char>|
                if vstd::utf8::encode_utf8(w).len() > 1 {
                    Some(lowered(w))
                } else {
                    None
                },
        ),
{
    lemma_kept_tokens_are(runs(s, CharClass::NonWord));
}

proof fn lemma_kept_tokens_are(words: Seq<Seq<char>>)
    ensures
        kept_tokens(words) == words.filter_map(
            |w: Seq<char>|
                if vstd::utf8::encode_utf8(w).len() > 1 {
                    Some(lowered(w))
                } else {
                    None
                },
        ),
    decreases words.len(),
{
    let f = |w: Seq<char>|
        if vstd::utf8::encode_utf8(w).len() > 1 {
            Some(lowered(w))
        } else {
            None
        };
    if words.len() != 0 {
        lemma_kept_tokens_are(words.drop_last());
        assert(kept_tokens(words) =~= words.filter_map(f));
    } else {
        assert(kept_tokens(words) =~= words.filter_map(f));
    }
}

/// Letters are lowered one by one where a text is ASCII: the case of a text does not matter
/// to its lowered form.
pub proof fn lowering_forgets_case(a: Seq<char>, b: Seq<char>)
    requires
        vstd::utf8::is_ascii_chars(a),
        vstd::utf8::is_ascii_chars(b),
        a.len() == b.len(),
        forall|i: int|
            0 <= i < a.len() ==> (#[trigger] a[i]) == b[i] || ('A' <= a[i] <= 'Z' && a[i] as u32 + 32
                == b[i] as u32),
    ensures
        lowered(a) == lowered(b),
        forall|i: int| 0 <= i < a.len() ==> !('A' <= #[trigger] lowered(a)[i] <= 'Z'),
{
    assert(lowered(a) =~= lowered(b));
}

/// What the classes of characters hold.
pub proof fn classes_hold_these(c: char, d: char)
    ensures
        CharClass::Is(d).has(c) <==> c == d,
        CharClass::Stop.has(c) <==> seq!['.', '!', '?'].contains(c),
        CharClass::SentenceEnd.has(c) <==> seq!['.', '!', '?', '\n'].contains(c),
        CharClass::PathSep.has(c) <==> seq!['/', '\\'].contains(c),
        CharClass::EqualsOrBlank.has(c) <==> seq!['=', ' '].contains(c),
        c == ' ' || c == '\t' || c == '\n' || c == '\r' || c == '\u{b}' || c == '\u{c}'
            ==> CharClass::Space.has(c),
        CharClass::Space.has(c) && (c as u32) < 128 ==> seq![
            ' ',
            '\t',
            '\n',
            '\r',
            '\u{b}',
            '\u{c}',
        ].contains(c),
        CharClass::NonWord.has(c) && (c as u32) < 128 <==> (c as u32) < 128 && !('0' <= c <= '9')
            && !('A' <= c <= 'Z') && !('a' <= c <= 'z'),
        CharClass::NonPackageName.has(c) <==> CharClass::NonWord.has(c) && c != '-' && c != '_' && c
            != '.',
{
    let stop = seq!['.', '!', '?'];
    assert(stop[0] == '.' && stop[1] == '!' && stop[2] == '?');
    let end = seq!['.', '!', '?', '\n'];
    assert(end[0] == '.' && end[1] == '!' && end[2] == '?' && end[3] == '\n');
    let sep = seq!['/', '\\'];
    assert(sep[0] == '/' && sep[1] == '\\');
    let eq = seq!['=', ' '];
    assert(eq[0] == '=' && eq[1] == ' ');
    let sp = seq![' ', '\t', '\n', '\r', '\u{b}', '\u{c}'];
    assert(sp[0] == ' ' && sp[1] == '\t' && sp[2] == '\n' && sp[3] == '\r' && sp[4] == '\u{b}'
        && sp[5] == '\u{c}');
}

/// Texts are in the order of a dictionary: the first character in which they differ decides, and
/// the beginning of a text comes before it.
pub proof fn texts_are_in_dictionary_order(a: Seq<char>, x: char, y: char, b: Seq<char>, c: Seq<char>)
    ensures
        x < y ==> text_lt(a + seq![x] + b, a + seq![y] + c),
        x > y ==> !text_lt(a + seq![x] + b, a + seq![y] + c),
        text_lt(a, a + seq![x] + b),
        !text_lt(a + seq![x] + b, a),
    decreases a.len(),
{
    let (p, q) = (a + seq![x] + b, a + seq![y] + c);
    if a.len() == 0 {
        assert(p[0] == x && q[0] == y);
        assert(p =~= seq![x] + b && q =~= seq![y] + c);
    } else {
        let t = a.drop_first();
        assert(p[0] == a[0] && q[0] == a[0]);
        assert(p.drop_first() =~= t + seq![x] + b);
        assert(q.drop_first() =~= t + seq![y] + c);
        texts_are_in_dictionary_order(t, x, y, b, c);
    }
}

/// ASCII letters are lowered, and nothing else in a text changes.
pub proof fn lowering_changes_only_letters(s: Seq<char>, i: int)
    requires
        0 <= i < s.len(),
    ensures
        ascii_lowered(s).len() == s.len(),
        'A' <= s[i] <= 'Z' ==> ascii_lowered(s)[i] as int == s[i] as int + 32,
        !('A' <= s[i] <= 'Z') ==> ascii_lowered(s)[i] == s[i],
{
}

/// The first characters of a text: all of them where there are no more.
pub proof fn first_characters_are_a_prefix(s: Seq<char>, n: int)
    requires
        n >= 0,
    ensures
        s.len() <= n ==> first_chars(s, n) == s,
        s.len() > n ==> first_chars(s, n) == s.subrange(0, n),
{
    if s.len() > n {
        assert(s.take(n) =~= s.subrange(0, n));
    } else if s.len() == n {
        assert(s.take(n) =~= s);
    }
}

/// Texts are joined in their order with the separator between them.
pub proof fn joining_puts_the_separator_between(a: Seq<Seq<char>>, x: Seq<char>, y: Seq<char>, sep: Seq<char>)
    ensures
        joined(Seq::empty(), sep).len() == 0,
        joined(seq![x], sep) == x,
        joined(a.push(x).push(y), sep) == joined(a.push(x), sep) + sep + y,
{
    assert(a.push(x).push(y).drop_last() =~= a.push(x));
}

/// A text has as many lines as line feeds, and one more where it goes on behind the last.
pub proof fn lines_are_counted_by_their_ends(s: Seq<char>)
    ensures
        lines(s).len() == s.filter(|c: char| c == '\n').len() + if s.len() == 0 || s.last() == '\n' {
            0int
        } else {
            1
        },
    decreases s.len(),
{
    let feed = |c: char| c == '\n';
    let class = CharClass::Is('\n');
    lemma_first_index(s, class);
    let i = first_index(s, class);
    if s.len() == 0 {
        assert(s.filter(feed).len() == 0) by {
            reveal(Seq::filter);
        }
    } else if i < s.len() {
        let (head, rest) = (s.take(i), s.skip(i + 1));
        lines_are_counted_by_their_ends(rest);
        assert(s =~= head + seq!['\n'] + rest);
        Seq::filter_distributes_over_add(head + seq!['\n'], rest, feed);
        Seq::filter_distributes_over_add(head, seq!['\n'], feed);
        assert(head.filter(feed).len() == 0) by {
            assert forall|j: int| 0 <= j < head.len() implies !feed(#[trigger] head[j]) by {
                assert(!class.has(s[j]));
            }
            lemma_filter_none(head, feed);
        }
        lemma_filter_one('\n', feed);
        if rest.len() != 0 {
            assert(rest.last() == s.last());
        }
    } else {
        assert forall|j: int| 0 <= j < s.len() implies !feed(#[trigger] s[j]) by {
            assert(!class.has(s[j]));
        }
        lemma_filter_none(s, feed);
        assert(!class.has(s[s.len() - 1]));
    }
}

proof fn lemma_filter_none(s: Seq<char>, keep: spec_fn(char) -> bool)
    requires
        forall|j: int| 0 <= j < s.len() ==> !keep(#[trigger] s[j]),
    ensures
        s.filter(keep).len() == 0,
    decreases s.len(),
{
    reveal(Seq::filter);
    if s.len() != 0 {
        assert forall|j: int| 0 <= j < s.drop_last().len() implies !keep(
            #[trigger] s.drop_last()[j],
        ) by {
            assert(s.drop_last()[j] == s[j]);
        }
        lemma_filter_none(s.drop_last(), keep);
        assert(!keep(s[s.len() - 1]));
    }
}

/// Trimming a character takes it off both ends and nothing else.
pub proof fn trimming_takes_only_its_character(s: Seq<char>, c: char) -> (r: (int, int))
    ensures
        0 <= r.0 <= r.1 <= s.len(),
        trimmed_of(s, CharClass::Is(c)) == s.subrange(r.0, r.1),
        forall|j: int| 0 <= j < s.len() && !(r.0 <= j < r.1) ==> #[trigger] s[j] == c,
        r.0 < r.1 ==> s[r.0] != c && s[r.1 - 1] != c,
{
    let class = CharClass::Is(c);
    let a = lemma_trimmed_start(s, class);
    let t = s.skip(a);
    let b = lemma_trimmed_end(t, class);
    assert(t.take(b) =~= s.subrange(a, a + b));
    assert forall|j: int| 0 <= j < s.len() && !(a <= j < a + b) implies #[trigger] s[j] == c by {
        if j >= a + b {
            assert(t[j - a] == s[j]);
            assert(class.has(t[j - a]));
        } else {
            assert(class.has(s[j]));
        }
    }
    if 0 < b {
        assert(t[0] == s[a]);
        assert(t[b - 1] == s[a + b - 1]);
    }
    (a, a + b)
}

/// Viewing a list keeps all its items, in their order.
pub proof fn views_keep_all(v: Seq<Vec<char>>, i: int)
    requires
        0 <= i < v.len(),
    ensures
        views(v).len() == v.len(),
        views(v)[i] == v[i]@,
{
}

/// Viewing a list keeps all its items, in their order.
pub proof fn string_views_keep_all(v: Seq<String>, i: int)
    requires
        0 <= i < v.len(),
    ensures
        string_views(v).len() == v.len(),
        string_views(v)[i] == v[i]@,
{
}

} // verus!
