//! Dependency names in manifests.
//!
//! Manifests are read line by line rather than parsed in full, but with their sections in
//! mind, so that a package's own name, version or scripts are not taken for dependencies.

use vstd::prelude::*;
use vstd::slice::slice_subrange;

use crate::text;
use crate::text::CharClass;

verus! {

// ---------------------------------------------------------------------------
// Lines
// ---------------------------------------------------------------------------

/// The heading of a table, `[heading]`.
pub open spec fn heading(l: Seq<char>) -> Option<Seq<char>> {
    if l.len() >= 2 && l[0] == '[' && l.last() == ']' {
        Some(text::trimmed(l.subrange(1, l.len() - 1)))
    } else {
        None
    }
}

/// A blank line or a comment after `mark`.
pub open spec fn ignored(l: Seq<char>, mark: Seq<char>) -> bool {
    l.len() == 0 || text::has_prefix(l, mark)
}

/// The key of an entry: what stands before the first `=` or blank, trimmed.
pub open spec fn key_of(l: Seq<char>) -> Seq<char> {
    text::trimmed(l.take(text::first_index(l, CharClass::EqualsOrBlank)))
}

/// A list with one more name, unless the name is empty.
pub open spec fn with_name(names: Seq<Seq<char>>, name: Seq<char>) -> Seq<Seq<char>> {
    if name.len() == 0 {
        names
    } else {
        names.push(name)
    }
}

fn heading_text(l: &[char]) -> (r: Option<Vec<char>>)
    ensures
        match r {
            Some(h) => heading(l@) == Some(h@),
            None => heading(l@) is None,
        },
{
    let n: usize = l.len();
    if n >= 2 && l[0] == '[' && l[n - 1] == ']' {
        Some(text::trim(&text::part(l, 1, n - 1)))
    } else {
        None
    }
}

fn is_ignored(l: &[char], mark: &str) -> (r: bool)
    ensures
        r == ignored(l@, mark@),
{
    l.len() == 0 || text::starts_with(l, mark)
}

fn entry_key(l: &[char]) -> (r: Vec<char>)
    ensures
        r@ == key_of(l@),
{
    let i: usize = text::find_class(l, CharClass::EqualsOrBlank);
    let k = text::part(l, 0, i);
    assert(k@ =~= l@.take(i as int));
    text::trim(&k)
}

fn add_name(names: &mut Vec<Vec<char>>, name: Vec<char>)
    ensures
        text::views(final(names)@) == with_name(text::views(old(names)@), name@),
{
    if name.len() != 0 {
        names.push(name);
        assert(text::views(names@) =~= text::views(old(names)@).push(name@));
    }
}

// ---------------------------------------------------------------------------
// Cargo.toml
// ---------------------------------------------------------------------------

/// Whether a heading opens a table of dependencies.
pub open spec fn opens_dependencies(h: Seq<char>) -> bool {
    &&& !text::occurs(h, "dependencies."@)
    &&& (h == "dependencies"@ || text::has_suffix(h, "-dependencies"@) || text::has_suffix(
        h,
        ".dependencies"@,
    ))
}

/// The dependency that a heading like `[dependencies.name]` names; empty where there is none.
pub open spec fn heading_dependency(h: Seq<char>) -> Seq<char> {
    match text::rfind_at(h, "dependencies."@) {
        Some(i) => text::trimmed_of(
            text::trimmed(h.skip(i + "dependencies."@.len())),
            CharClass::Is('"'),
        ),
        None => Seq::empty(),
    }
}

/// Whether, after these lines, entries are dependencies.
pub open spec fn cargo_in_dependencies(lines: Seq<Seq<char>>) -> bool
    decreases lines.len(),
{
    if lines.len() == 0 {
        false
    } else {
        let l = text::trimmed(lines.last());
        if ignored(l, "#"@) {
            cargo_in_dependencies(lines.drop_last())
        } else {
            match heading(l) {
                Some(h) => opens_dependencies(h),
                None => cargo_in_dependencies(lines.drop_last()),
            }
        }
    }
}

/// The dependencies on the lines of a `Cargo.toml`.
pub open spec fn cargo_names(lines: Seq<Seq<char>>) -> Seq<Seq<char>>
    decreases lines.len(),
{
    if lines.len() == 0 {
        Seq::empty()
    } else {
        let before = cargo_names(lines.drop_last());
        let l = text::trimmed(lines.last());
        if ignored(l, "#"@) {
            before
        } else {
            match heading(l) {
                Some(h) => with_name(before, heading_dependency(h)),
                None => if cargo_in_dependencies(lines.drop_last()) {
                    with_name(before, key_of(l))
                } else {
                    before
                },
            }
        }
    }
}

fn cargo_heading(h: &[char], deps: &mut Vec<Vec<char>>) -> (r: bool)
    ensures
        r == opens_dependencies(h@),
        text::views(final(deps)@) == with_name(text::views(old(deps)@), heading_dependency(h@)),
{
    let mark = text::chars_of("dependencies.");
    let n: usize = h.len();
    match text::rfind(h, &mark) {
        Some(i) => {
            assert(text::occurs_at(h@, mark@, i as int));
            let rest = text::part(h, i + mark.len(), n);
            assert(rest@ =~= h@.skip(i + mark@.len()));
            let name = text::trim_class(&text::trim(&rest), CharClass::Is('"'));
            add_name(deps, name);
            false
        },
        None => {
            assert(text::views(deps@) =~= text::views(old(deps)@));
            text::same(h, &text::chars_of("dependencies")) || text::ends_with(h, "-dependencies")
                || text::ends_with(h, ".dependencies")
        },
    }
}

fn cargo_dependencies(lines: &Vec<Vec<char>>) -> (r: Vec<Vec<char>>)
    ensures
        text::views(r@) == cargo_names(text::views(lines@)),
{
    let mut deps: Vec<Vec<char>> = Vec::new();
    let mut in_deps = false;
    let ghost ls = text::views(lines@);
    let n: usize = lines.len();
    assert(ls.take(0) =~= Seq::empty());
    assert(text::views(deps@) =~= Seq::empty());
    for i in 0..n
        invariant
            n == lines@.len(),
            ls == text::views(lines@),
            in_deps == cargo_in_dependencies(ls.take(i as int)),
            text::views(deps@) == cargo_names(ls.take(i as int)),
    {
        assert(ls.take(i + 1).drop_last() =~= ls.take(i as int));
        assert(ls.take(i + 1).last() == lines@[i as int]@);
        let l = text::trim(&lines[i]);
        if !is_ignored(&l, "#") {
            match heading_text(&l) {
                Some(h) => {
                    in_deps = cargo_heading(&h, &mut deps);
                },
                None => {
                    if in_deps {
                        add_name(&mut deps, entry_key(&l));
                    }
                },
            }
        }
    }
    assert(ls.take(n as int) =~= ls);
    deps
}

// ---------------------------------------------------------------------------
// go.mod
// ---------------------------------------------------------------------------

/// Whether, after these lines, a `require (` block is open.
pub open spec fn go_in_block(lines: Seq<Seq<char>>) -> bool
    decreases lines.len(),
{
    if lines.len() == 0 {
        false
    } else {
        let open = go_in_block(lines.drop_last());
        let l = text::trimmed(lines.last());
        if ignored(l, "//"@) {
            open
        } else if open {
            !text::has_prefix(l, ")"@)
        } else {
            text::has_prefix(l, "require ("@)
        }
    }
}

/// A list with one more word, where there is one.
pub open spec fn with_word(names: Seq<Seq<char>>, word: Option<Seq<char>>) -> Seq<Seq<char>> {
    match word {
        Some(w) => names.push(w),
        None => names,
    }
}

/// The modules that the lines of a `go.mod` require.
pub open spec fn go_names(lines: Seq<Seq<char>>) -> Seq<Seq<char>>
    decreases lines.len(),
{
    if lines.len() == 0 {
        Seq::empty()
    } else {
        let before = go_names(lines.drop_last());
        let l = text::trimmed(lines.last());
        if ignored(l, "//"@) {
            before
        } else if go_in_block(lines.drop_last()) {
            if text::has_prefix(l, ")"@) {
                before
            } else {
                with_word(before, text::first_word(l))
            }
        } else if text::has_prefix(l, "require ("@) {
            before
        } else if text::has_prefix(l, "require "@) {
            with_word(before, text::first_word(l.skip("require "@.len() as int)))
        } else {
            before
        }
    }
}

fn add_first_word(names: &mut Vec<Vec<char>>, s: &[char])
    ensures
        text::views(final(names)@) == with_word(text::views(old(names)@), text::first_word(s@)),
{
    let words = text::split_runs(s, CharClass::Space);
    if words.len() != 0 {
        let w = text::part(&words[0], 0, words[0].len());
        assert(w@ =~= words@[0]@);
        assert(text::views(words@)[0] == w@);
        names.push(w);
        assert(text::views(names@) =~= text::views(old(names)@).push(w@));
    } else {
        assert(text::views(names@) =~= text::views(old(names)@));
    }
}

fn go_dependencies(lines: &Vec<Vec<char>>) -> (r: Vec<Vec<char>>)
    ensures
        text::views(r@) == go_names(text::views(lines@)),
{
    let mut deps: Vec<Vec<char>> = Vec::new();
    let mut in_block = false;
    let ghost ls = text::views(lines@);
    let n: usize = lines.len();
    assert(ls.take(0) =~= Seq::empty());
    assert(text::views(deps@) =~= Seq::empty());
    for i in 0..n
        invariant
            n == lines@.len(),
            ls == text::views(lines@),
            in_block == go_in_block(ls.take(i as int)),
            text::views(deps@) == go_names(ls.take(i as int)),
    {
        assert(ls.take(i + 1).drop_last() =~= ls.take(i as int));
        assert(ls.take(i + 1).last() == lines@[i as int]@);
        let l = text::trim(&lines[i]);
        if !is_ignored(&l, "//") {
            if in_block {
                if text::starts_with(&l, ")") {
                    in_block = false;
                } else {
                    add_first_word(&mut deps, &l);
                }
            } else if text::starts_with(&l, "require (") {
                in_block = true;
            } else if text::starts_with(&l, "require ") {
                let k: usize = text::chars_of("require ").len();
                let rest = text::part(&l, k, l.len());
                assert(rest@ =~= l@.skip(k as int));
                add_first_word(&mut deps, &rest);
            }
        }
    }
    assert(ls.take(n as int) =~= ls);
    deps
}

// ---------------------------------------------------------------------------
// package.json
// ---------------------------------------------------------------------------

/// The quoted keys of the dependency objects.
pub open spec fn package_key(i: int) -> Seq<char> {
    if i == 0 {
        "\"dependencies\""@
    } else if i == 1 {
        "\"devDependencies\""@
    } else if i == 2 {
        "\"peerDependencies\""@
    } else {
        "\"optionalDependencies\""@
    }
}

/// The number of dependency objects.
pub const PACKAGE_KEYS: usize = 4;

/// Where the object that is open `depth` braces deep ends, from index `i` on; the end of the
/// text where it does not.
pub open spec fn closing(s: Seq<char>, i: int, depth: nat) -> int
    decreases s.len() - i,
{
    if i >= s.len() || i < 0 {
        s.len() as int
    } else if s[i] == '{' {
        closing(s, i + 1, depth + 1)
    } else if s[i] == '}' {
        if depth <= 1 {
            i
        } else {
            closing(s, i + 1, (depth - 1) as nat)
        }
    } else {
        closing(s, i + 1, depth)
    }
}

/// The first quoted text of an entry; empty where there is none.
pub open spec fn quoted(entry: Seq<char>) -> Seq<char> {
    let q1 = text::first_index(entry, CharClass::Is('"'));
    let after = entry.skip(q1 + 1);
    let q2 = text::first_index(after, CharClass::Is('"'));
    if q1 < entry.len() && q2 < after.len() {
        after.take(q2)
    } else {
        Seq::empty()
    }
}

/// The keys of the entries of an object.
pub open spec fn entry_names(entries: Seq<Seq<char>>) -> Seq<Seq<char>>
    decreases entries.len(),
{
    if entries.len() == 0 {
        Seq::empty()
    } else {
        with_name(entry_names(entries.drop_last()), quoted(entries.last()))
    }
}

/// The keys of the objects that follow a quoted key, from index `from` on.
pub open spec fn package_names(s: Seq<char>, key: Seq<char>, from: int) -> Seq<Seq<char>>
    decreases s.len() - from,
{
    if from < 0 || from > s.len() {
        Seq::empty()
    } else {
        match text::find_at(s.skip(from), key) {
            None => Seq::empty(),
            Some(k) => {
                let abs = from + k;
                let brace = abs + text::first_index(s.skip(abs), CharClass::Is('{'));
                let end = closing(s, brace + 1, 1);
                if from <= abs <= brace < s.len() && brace < end <= s.len() {
                    entry_names(text::pieces(s.subrange(brace + 1, end), CharClass::Is(',')))
                        + package_names(s, key, end)
                } else {
                    Seq::empty()
                }
            },
        }
    }
}

/// The keys of the first `n` kinds of dependency object.
pub open spec fn package_all(s: Seq<char>, n: nat) -> Seq<Seq<char>>
    decreases n,
{
    if n == 0 {
        Seq::empty()
    } else {
        package_all(s, (n - 1) as nat) + package_names(s, package_key(n - 1), 0)
    }
}

fn package_key_text(i: usize) -> (r: &'static str)
    ensures
        r@ == package_key(i as int),
{
    match i {
        0 => "\"dependencies\"",
        1 => "\"devDependencies\"",
        2 => "\"peerDependencies\"",
        _ => "\"optionalDependencies\"",
    }
}

fn find_closing(s: &[char], from: usize) -> (r: usize)
    requires
        1 <= from <= s@.len(),
    ensures
        r == closing(s@, from as int, 1),
        from <= r <= s@.len(),
{
    let n: usize = s.len();
    let mut depth: usize = 1;
    let mut i: usize = from;
    while i < n
        invariant
            1 <= from <= i <= n == s@.len(),
            1 <= depth <= i + 1 - from,
            closing(s@, from as int, 1) == closing(s@, i as int, depth as nat),
        decreases n - i,
    {
        let c = s[i];
        if c == '{' {
            depth += 1;
        } else if c == '}' {
            if depth == 1 {
                return i;
            }
            depth -= 1;
        }
        i += 1;
    }
    n
}

fn quoted_text(entry: &[char]) -> (r: Vec<char>)
    ensures
        r@ == quoted(entry@),
{
    let n: usize = entry.len();
    let q1: usize = text::find_class(entry, CharClass::Is('"'));
    if q1 < n {
        let after = text::part(entry, q1 + 1, n);
        assert(after@ =~= entry@.skip(q1 + 1));
        let q2: usize = text::find_class(&after, CharClass::Is('"'));
        if q2 < after.len() {
            let out = text::part(&after, 0, q2);
            assert(out@ =~= after@.take(q2 as int));
            return out;
        }
    }
    Vec::new()
}

fn object_names(object: &[char]) -> (r: Vec<Vec<char>>)
    ensures
        text::views(r@) == entry_names(text::pieces(object@, CharClass::Is(','))),
{
    let entries = text::split(object, CharClass::Is(','));
    let ghost es = text::views(entries@);
    let mut out: Vec<Vec<char>> = Vec::new();
    let n: usize = entries.len();
    assert(es.take(0) =~= Seq::empty());
    assert(text::views(out@) =~= Seq::empty());
    for i in 0..n
        invariant
            n == entries@.len(),
            es == text::views(entries@),
            text::views(out@) == entry_names(es.take(i as int)),
    {
        assert(es.take(i + 1).drop_last() =~= es.take(i as int));
        assert(es.take(i + 1).last() == entries@[i as int]@);
        add_name(&mut out, quoted_text(&entries[i]));
    }
    assert(es.take(n as int) =~= es);
    out
}

fn append_names(out: &mut Vec<Vec<char>>, names: Vec<Vec<char>>)
    ensures
        text::views(final(out)@) == text::views(old(out)@) + text::views(names@),
{
    let ghost added = names@;
    let mut names = names;
    out.append(&mut names);
    assert(text::views(out@) =~= text::views(old(out)@) + text::views(added));
}

fn key_names(s: &[char], key: &[char], deps: &mut Vec<Vec<char>>)
    ensures
        text::views(final(deps)@) == text::views(old(deps)@) + package_names(s@, key@, 0),
{
    let n: usize = s.len();
    let ghost was = text::views(deps@);
    let ghost all = package_names(s@, key@, 0);
    let mut from: usize = 0;
    assert(was + all =~= text::views(deps@) + package_names(s@, key@, 0));
    loop
        invariant
            from <= n == s@.len(),
            was + all == text::views(deps@) + package_names(s@, key@, from as int),
        ensures
            was + all == text::views(deps@),
        decreases n - from,
    {
        let ghost before = text::views(deps@);
        let tail = slice_subrange(s, from, n);
        assert(tail@ =~= s@.skip(from as int));
        let k: usize = match text::find(tail, key) {
            Some(k) => k,
            None => {
                assert(before + Seq::empty() =~= before);
                break;
            },
        };
        let abs: usize = from + k;
        let rest = slice_subrange(s, abs, n);
        assert(rest@ =~= s@.skip(abs as int));
        let b: usize = text::find_class(rest, CharClass::Is('{'));
        if b == n - abs {
            assert(before + Seq::empty() =~= before);
            break;
        }
        let start: usize = abs + b + 1;
        let end: usize = find_closing(s, start);
        let object = slice_subrange(s, start, end);
        append_names(deps, object_names(object));
        assert(text::views(deps@) + package_names(s@, key@, end as int) =~= before + (entry_names(
            text::pieces(s@.subrange(start as int, end as int), CharClass::Is(',')),
        ) + package_names(s@, key@, end as int)));
        from = end;
    }
}

fn package_dependencies(s: &[char]) -> (r: Vec<Vec<char>>)
    ensures
        text::views(r@) == package_all(s@, PACKAGE_KEYS as nat),
{
    let mut deps: Vec<Vec<char>> = Vec::new();
    assert(text::views(deps@) =~= Seq::empty());
    for i in 0..PACKAGE_KEYS
        invariant
            text::views(deps@) == package_all(s@, i as nat),
    {
        let key = text::chars_of(package_key_text(i));
        key_names(s, &key, &mut deps);
    }
    deps
}

// ---------------------------------------------------------------------------
// pyproject.toml
// ---------------------------------------------------------------------------

/// The package names in the quoted requirements on a line: the leading name of each.
pub open spec fn requirement_names(s: Seq<char>) -> Seq<Seq<char>>
    decreases s.len(),
{
    let q1 = text::first_index(s, CharClass::Is('"'));
    let after = s.skip(q1 + 1);
    let q2 = text::first_index(after, CharClass::Is('"'));
    if 0 <= q1 < s.len() && 0 <= q2 < after.len() {
        let spec_text = after.take(q2);
        with_name(
            Seq::empty(),
            spec_text.take(text::first_index(spec_text, CharClass::NonPackageName)),
        ) + requirement_names(after.skip(q2 + 1))
    } else {
        Seq::empty()
    }
}

/// Where a `pyproject.toml` stands: in a table of Poetry dependencies, or in an array of
/// dependencies.
pub struct PyState {
    pub poetry: bool,
    pub array: bool,
}

/// Whether a line opens an array of dependencies.
pub open spec fn opens_array(l: Seq<char>) -> bool {
    text::has_prefix(l, "dependencies"@) && text::has_class(l, CharClass::Is('='))
        && text::has_class(l, CharClass::Is('['))
}

/// Where the file stands after these lines.
pub open spec fn py_state(lines: Seq<Seq<char>>) -> PyState
    decreases lines.len(),
{
    if lines.len() == 0 {
        PyState { poetry: false, array: false }
    } else {
        let at = py_state(lines.drop_last());
        let l = text::trimmed(lines.last());
        if ignored(l, "#"@) {
            at
        } else {
            match heading(l) {
                Some(h) => PyState {
                    poetry: text::has_prefix(h, "tool.poetry"@) && text::has_suffix(
                        h,
                        "dependencies"@,
                    ),
                    array: false,
                },
                None => if at.poetry {
                    at
                } else if at.array || opens_array(l) {
                    PyState { poetry: false, array: !text::has_class(l, CharClass::Is(']')) }
                } else {
                    at
                },
            }
        }
    }
}

/// The key of a Poetry entry; empty for the interpreter itself.
pub open spec fn poetry_name(l: Seq<char>) -> Seq<char> {
    let name = text::trimmed_of(key_of(l), CharClass::Is('"'));
    if name == "python"@ {
        Seq::empty()
    } else {
        name
    }
}

/// The dependencies on the lines of a `pyproject.toml`.
pub open spec fn py_names(lines: Seq<Seq<char>>) -> Seq<Seq<char>>
    decreases lines.len(),
{
    if lines.len() == 0 {
        Seq::empty()
    } else {
        let before = py_names(lines.drop_last());
        let at = py_state(lines.drop_last());
        let l = text::trimmed(lines.last());
        if ignored(l, "#"@) || heading(l) is Some {
            before
        } else if at.poetry {
            with_name(before, poetry_name(l))
        } else if at.array || opens_array(l) {
            before + requirement_names(l)
        } else {
            before
        }
    }
}

fn add_requirements(l: &[char], deps: &mut Vec<Vec<char>>)
    ensures
        text::views(final(deps)@) == text::views(old(deps)@) + requirement_names(l@),
{
    let n: usize = l.len();
    let ghost was = text::views(deps@);
    let ghost all = requirement_names(l@);
    let mut from: usize = 0;
    assert(l@.skip(0) =~= l@);
    loop
        invariant
            from <= n == l@.len(),
            was + all == text::views(deps@) + requirement_names(l@.skip(from as int)),
        ensures
            was + all == text::views(deps@),
        decreases n - from,
    {
        let ghost before = text::views(deps@);
        let ghost s = l@.skip(from as int);
        let tail = slice_subrange(l, from, n);
        assert(tail@ =~= s);
        let q1: usize = text::find_class(tail, CharClass::Is('"'));
        if q1 == n - from {
            assert(before + Seq::empty() =~= before);
            break;
        }
        let a: usize = from + q1 + 1;
        let after = slice_subrange(l, a, n);
        assert(after@ =~= s.skip(q1 + 1));
        let q2: usize = text::find_class(after, CharClass::Is('"'));
        if q2 == n - a {
            assert(before + Seq::empty() =~= before);
            break;
        }
        let spec_text = text::part(after, 0, q2);
        assert(spec_text@ =~= after@.take(q2 as int));
        let k: usize = text::find_class(&spec_text, CharClass::NonPackageName);
        let name = text::part(&spec_text, 0, k);
        assert(name@ =~= spec_text@.take(k as int));
        add_name(deps, name);
        from = a + q2 + 1;
        assert(after@.skip(q2 + 1) =~= l@.skip(from as int));
        assert(text::views(deps@) =~= before + with_name(Seq::empty(), name@));
        assert(text::views(deps@) + requirement_names(l@.skip(from as int)) =~= before + (with_name(
            Seq::empty(),
            name@,
        ) + requirement_names(l@.skip(from as int))));
    }
}

fn array_opens(l: &[char]) -> (r: bool)
    ensures
        r == opens_array(l@),
{
    text::starts_with(l, "dependencies") && text::contains_class(l, CharClass::Is('='))
        && text::contains_class(l, CharClass::Is('['))
}

fn py_dependencies(lines: &Vec<Vec<char>>) -> (r: Vec<Vec<char>>)
    ensures
        text::views(r@) == py_names(text::views(lines@)),
{
    let mut deps: Vec<Vec<char>> = Vec::new();
    let mut at = PyState { poetry: false, array: false };
    let ghost ls = text::views(lines@);
    let n: usize = lines.len();
    assert(ls.take(0) =~= Seq::empty());
    assert(text::views(deps@) =~= Seq::empty());
    for i in 0..n
        invariant
            n == lines@.len(),
            ls == text::views(lines@),
            at == py_state(ls.take(i as int)),
            text::views(deps@) == py_names(ls.take(i as int)),
    {
        assert(ls.take(i + 1).drop_last() =~= ls.take(i as int));
        assert(ls.take(i + 1).last() == lines@[i as int]@);
        let l = text::trim(&lines[i]);
        if !is_ignored(&l, "#") {
            match heading_text(&l) {
                Some(h) => {
                    at = PyState {
                        poetry: text::starts_with(&h, "tool.poetry") && text::ends_with(
                            &h,
                            "dependencies",
                        ),
                        array: false,
                    };
                },
                None => {
                    if at.poetry {
                        let name = text::trim_class(&entry_key(&l), CharClass::Is('"'));
                        if !text::same(&name, &text::chars_of("python")) {
                            add_name(&mut deps, name);
                        }
                    } else if at.array || array_opens(&l) {
                        at = PyState {
                            poetry: false,
                            array: !text::contains_class(&l, CharClass::Is(']')),
                        };
                        add_requirements(&l, &mut deps);
                    }
                },
            }
        }
    }
    assert(ls.take(n as int) =~= ls);
    deps
}

// ---------------------------------------------------------------------------
// All manifests
// ---------------------------------------------------------------------------

/// The manifests that are read.
pub open spec fn is_manifest(fname: Seq<char>) -> bool {
    fname == "Cargo.toml"@ || fname == "package.json"@ || fname == "go.mod"@ || fname
        == "pyproject.toml"@
}

/// The names in a manifest, before the bounds on them.
pub open spec fn raw_names(fname: Seq<char>, s: Seq<char>) -> Seq<Seq<char>> {
    if fname == "Cargo.toml"@ {
        cargo_names(text::lines(s))
    } else if fname == "go.mod"@ {
        go_names(text::lines(s))
    } else if fname == "package.json"@ {
        package_all(s, PACKAGE_KEYS as nat)
    } else if fname == "pyproject.toml"@ {
        py_names(text::lines(s))
    } else {
        Seq::empty()
    }
}

/// The names that are not empty and shorter than 64 bytes.
pub open spec fn short_names(names: Seq<Seq<char>>) -> Seq<Seq<char>>
    decreases names.len(),
{
    if names.len() == 0 {
        Seq::empty()
    } else {
        let before = short_names(names.drop_last());
        if names.last().len() != 0 && text::utf8_len(names.last()) < 64 {
            before.push(names.last())
        } else {
            before
        }
    }
}

/// The most dependencies that are taken from one manifest.
pub const MAX_DEPENDENCIES: usize = 100;

/// The dependencies that a manifest names.
pub open spec fn dependencies(fname: Seq<char>, s: Seq<char>) -> Seq<Seq<char>> {
    text::first_n(short_names(raw_names(fname, s)), MAX_DEPENDENCIES as int)
}

/// Whether a file is a manifest that is read.
pub fn is_manifest_name(fname: &str) -> (r: bool)
    ensures
        r == is_manifest(fname@),
{
    text::same_str(fname, "Cargo.toml") || text::same_str(fname, "package.json") || text::same_str(
        fname,
        "go.mod",
    ) || text::same_str(fname, "pyproject.toml")
}

fn all_names(fname: &str, s: &str) -> (r: Vec<Vec<char>>)
    ensures
        text::views(r@) == raw_names(fname@, s@),
{
    let cs = text::chars_of(s);
    if text::same_str(fname, "Cargo.toml") {
        cargo_dependencies(&text::split_lines(&cs))
    } else if text::same_str(fname, "go.mod") {
        go_dependencies(&text::split_lines(&cs))
    } else if text::same_str(fname, "package.json") {
        package_dependencies(&cs)
    } else if text::same_str(fname, "pyproject.toml") {
        py_dependencies(&text::split_lines(&cs))
    } else {
        let none: Vec<Vec<char>> = Vec::new();
        assert(text::views(none@) =~= Seq::empty());
        none
    }
}

/// Reads the dependency names in a manifest.
pub fn parse_manifest(fname: &str, s: &str) -> (r: Vec<String>)
    ensures
        text::string_views(r@) == dependencies(fname@, s@),
{
    let names = all_names(fname, s);
    let ghost ns = text::views(names@);
    let mut out: Vec<String> = Vec::new();
    let n: usize = names.len();
    assert(ns.take(0) =~= Seq::empty());
    assert(text::string_views(out@) =~= Seq::empty());
    for i in 0..n
        invariant
            n == names@.len(),
            ns == text::views(names@),
            text::string_views(out@) == text::first_n(
                short_names(ns.take(i as int)),
                MAX_DEPENDENCIES as int,
            ),
    {
        assert(ns.take(i + 1).drop_last() =~= ns.take(i as int));
        assert(ns.take(i + 1).last() == names@[i as int]@);
        let ghost kept = short_names(ns.take(i as int));
        if names[i].len() != 0 && text::byte_len(&names[i]) < 64 {
            if out.len() < MAX_DEPENDENCIES {
                let ghost before = out@;
                out.push(text::string_of(&names[i]));
                assert(text::string_views(out@) =~= text::string_views(before).push(
                    names@[i as int]@,
                ));
                assert(text::string_views(out@) =~= text::first_n(
                    kept.push(names@[i as int]@),
                    MAX_DEPENDENCIES as int,
                ));
            } else {
                assert(text::first_n(kept.push(names@[i as int]@), MAX_DEPENDENCIES as int)
                    =~= text::first_n(kept, MAX_DEPENDENCIES as int));
            }
        }
    }
    assert(ns.take(n as int) =~= ns);
    out
}

// ---------------------------------------------------------------------------
// Laws
// ---------------------------------------------------------------------------

/// How many more braces are opened than closed from one index to another.
pub open spec fn nesting(s: Seq<char>, a: int, b: int) -> int
    decreases b - a,
{
    if b <= a {
        0
    } else {
        nesting(s, a, b - 1) + (if s[b - 1] == '{' {
            1int
        } else if s[b - 1] == '}' {
            -1
        } else {
            0
        })
    }
}

/// Whether a key stands at `o.0`, the first time from `from` on, and its object goes from the
/// first brace behind it, at `o.1`, to the brace at `o.2` that closes it; to the end of the
/// text, where none does.
pub open spec fn is_object(s: Seq<char>, key: Seq<char>, from: int, o: (int, int, int)) -> bool {
    &&& 0 <= from <= o.0 <= o.1 < o.2 <= s.len()
    &&& text::occurs_at(s, key, o.0)
    &&& forall|j: int| from <= j < o.0 ==> !#[trigger] text::occurs_at(s, key, j)
    &&& s[o.1] == '{'
    &&& forall|j: int| o.0 <= j < o.1 ==> #[trigger] s[j] != '{'
    &&& forall|k: int| o.1 < k <= o.2 ==> #[trigger] nesting(s, o.1, k) >= 1
    &&& o.2 == s.len() || nesting(s, o.1, o.2 + 1) == 0
}

proof fn lemma_closing(s: Seq<char>, open: int, k: int, close: int)
    requires
        0 <= open < k <= close <= s.len(),
        forall|j: int| open < j <= close ==> #[trigger] nesting(s, open, j) >= 1,
        close == s.len() || nesting(s, open, close + 1) == 0,
    ensures
        closing(s, k, nesting(s, open, k) as nat) == close,
    decreases close - k,
{
    assert(nesting(s, open, k) >= 1);
    if k < close {
        assert(nesting(s, open, k + 1) >= 1);
        lemma_closing(s, open, k + 1, close);
    } else if close < s.len() {
        assert(nesting(s, open, close + 1) == 0);
    }
}

/// The names that follow a key are those of its first object, and then those that follow the
/// key from the end of that object on; none where the key does not occur.
pub proof fn objects_are_read_in_turn(s: Seq<char>, key: Seq<char>, from: int, o: (int, int, int))
    ensures
        is_object(s, key, from, o) ==> package_names(s, key, from) == entry_names(
            text::pieces(s.subrange(o.1 + 1, o.2), CharClass::Is(',')),
        ) + package_names(s, key, o.2),
        (forall|j: int| from <= j ==> !#[trigger] text::occurs_at(s, key, j)) ==> package_names(
            s,
            key,
            from,
        ).len() == 0,
{
    if is_object(s, key, from, o) {
        let (at, open, close) = o;
        let t = s.skip(from);
        assert forall|j: int| 0 <= j implies #[trigger] text::occurs_at(t, key, j)
            == text::occurs_at(s, key, from + j) by {
            if j + key.len() <= t.len() {
                assert(t.subrange(j, j + key.len()) =~= s.subrange(from + j, from + j + key.len()));
            }
        }
        assert(text::occurs_at(t, key, at - from) == text::occurs_at(s, key, from + (at - from)));
        assert(text::occurs_at(t, key, at - from));
        assert forall|j: int| 0 <= j < at - from implies !#[trigger] text::occurs_at(t, key, j) by {
            assert(text::occurs_at(t, key, j) == text::occurs_at(s, key, from + j));
        }
        text::lemma_find_at(t, key, at - from);
        let rest = s.skip(at);
        assert forall|j: int| 0 <= j < open - at implies !CharClass::Is('{').has(
            #[trigger] rest[j],
        ) by {
            assert(rest[j] == s[at + j]);
        }
        assert(rest[open - at] == s[open]);
        text::lemma_first_index_is(rest, CharClass::Is('{'), open - at);
        assert(nesting(s, open, open) == 0);
        assert(nesting(s, open, open + 1) == 1);
        lemma_closing(s, open, open + 1, close);
    }
    if (forall|j: int| from <= j ==> !#[trigger] text::occurs_at(s, key, j)) && 0 <= from
        <= s.len() {
        let t = s.skip(from);
        assert(!text::occurs(t, key)) by {
            if text::occurs(t, key) {
                let j = choose|j: int| #[trigger] text::occurs_at(t, key, j);
                assert(t.subrange(j, j + key.len()) =~= s.subrange(from + j, from + j + key.len()));
                assert(text::occurs_at(s, key, from + j));
            }
        }
    }
}

/// The name of an entry is its first quoted text.
pub proof fn names_stand_in_quotes(entry: Seq<char>, q1: int, q2: int)
    requires
        0 <= q1 < q2 < entry.len(),
        entry[q1] == '"',
        entry[q2] == '"',
        forall|j: int| 0 <= j < q1 ==> #[trigger] entry[j] != '"',
        forall|j: int| q1 < j < q2 ==> #[trigger] entry[j] != '"',
    ensures
        quoted(entry) == entry.subrange(q1 + 1, q2),
{
    text::lemma_first_index_is(entry, CharClass::Is('"'), q1);
    let after = entry.skip(q1 + 1);
    assert forall|j: int| 0 <= j < q2 - q1 - 1 implies !CharClass::Is('"').has(
        #[trigger] after[j],
    ) by {
        assert(after[j] == entry[q1 + 1 + j]);
    }
    assert(after[q2 - q1 - 1] == entry[q2]);
    text::lemma_first_index_is(after, CharClass::Is('"'), q2 - q1 - 1);
    assert(after.take(q2 - q1 - 1) =~= entry.subrange(q1 + 1, q2));
}

/// An entry with fewer than two quotes has no name.
pub proof fn no_quotes_no_name(entry: Seq<char>, q: int)
    requires
        forall|j: int| 0 <= j < entry.len() && j != q ==> #[trigger] entry[j] != '"',
    ensures
        quoted(entry).len() == 0,
{
    text::lemma_first_index(entry, CharClass::Is('"'));
    let q1 = text::first_index(entry, CharClass::Is('"'));
    let after = entry.skip(q1 + 1);
    text::lemma_first_index(after, CharClass::Is('"'));
    let q2 = text::first_index(after, CharClass::Is('"'));
    if q1 < entry.len() && q2 < after.len() {
        assert(after[q2] == entry[q1 + 1 + q2]);
        assert(CharClass::Is('"').has(after[q2]));
    }
}

/// Every entry of an object gives its name, in order; no entry is passed over.
pub proof fn every_entry_gives_its_name(entries: Seq<Seq<char>>)
    ensures
        entry_names(entries) == entries.filter_map(
            |e: Seq<char>|
                if quoted(e).len() == 0 {
                    None
                } else {
                    Some(quoted(e))
                },
        ),
        forall|k: int|
            0 <= k < entries.len() && quoted(#[trigger] entries[k]).len() != 0 ==> entry_names(
                entries,
            ).contains(quoted(entries[k])),
    decreases entries.len(),
{
    if entries.len() != 0 {
        let init = entries.drop_last();
        every_entry_gives_its_name(init);
        let before = entry_names(init);
        let all = entry_names(entries);
        assert forall|k: int| 0 <= k < entries.len() && quoted(#[trigger] entries[k]).len()
            != 0 implies all.contains(quoted(entries[k])) by {
            if k < init.len() {
                assert(init[k] == entries[k]);
                let i = choose|i: int| 0 <= i < before.len() && before[i] == quoted(entries[k]);
                assert(all[i] == before[i]);
            } else {
                assert(all[before.len() as int] == quoted(entries[k]));
            }
        }
    }
}

/// Whether objects follow a key one after the other.
pub open spec fn are_objects(s: Seq<char>, key: Seq<char>, from: int, os: Seq<(int, int, int)>) -> bool {
    forall|m: int|
        0 <= m < os.len() ==> is_object(
            s,
            key,
            if m == 0 {
                from
            } else {
                os[m - 1].2
            },
            #[trigger] os[m],
        )
}

proof fn lemma_in_sum(a: Seq<Seq<char>>, b: Seq<Seq<char>>, x: Seq<char>)
    requires
        a.contains(x) || b.contains(x),
    ensures
        (a + b).contains(x),
{
    if a.contains(x) {
        let i = choose|i: int| 0 <= i < a.len() && a[i] == x;
        assert((a + b)[i] == x);
    } else {
        let i = choose|i: int| 0 <= i < b.len() && b[i] == x;
        assert((a + b)[a.len() + i] == x);
    }
}

/// Every key of every object that follows a dependency key is named: whatever stands in quotes
/// first between two commas, or the ends of the object.
#[verifier::spinoff_prover]
pub proof fn every_key_of_an_object_is_named(
    s: Seq<char>,
    key: Seq<char>,
    from: int,
    os: Seq<(int, int, int)>,
    a: int,
    b: int,
    q1: int,
    q2: int,
)
    requires
        os.len() != 0,
        are_objects(s, key, from, os),
        os.last().1 < a <= q1 < q2 < b <= os.last().2,
        a == os.last().1 + 1 || s[a - 1] == ',',
        b == os.last().2 || s[b] == ',',
        forall|j: int| a <= j < b ==> #[trigger] s[j] != ',',
        s[q1] == '"',
        s[q2] == '"',
        forall|j: int| a <= j < q1 ==> #[trigger] s[j] != '"',
        forall|j: int| q1 < j < q2 ==> #[trigger] s[j] != '"',
        q1 + 1 < q2,
    ensures
        package_names(s, key, from).contains(s.subrange(q1 + 1, q2)),
    decreases os.len(),
{
    let o = os[0];
    let name = s.subrange(q1 + 1, q2);
    assert(is_object(s, key, from, o));
    objects_are_read_in_turn(s, key, from, o);
    let (open, close) = (o.1, o.2);
    let object = s.subrange(open + 1, close);
    let entries = text::pieces(object, CharClass::Is(','));
    if os.len() == 1 {
        let (x, y) = (a - open - 1, b - open - 1);
        assert forall|j: int| x <= j < y implies #[trigger] object[j] != ',' by {
            assert(object[j] == s[open + 1 + j]);
        }
        if x != 0 {
            assert(object[x - 1] == s[a - 1]);
        }
        if y != object.len() {
            assert(object[y] == s[b]);
        }
        text::every_piece_is_found(object, ',', x, y);
        let entry = object.subrange(x, y);
        let k = choose|k: int| 0 <= k < entries.len() && entries[k] == entry;
        assert forall|j: int| 0 <= j < q1 - a implies #[trigger] entry[j] != '"' by {
            assert(entry[j] == s[a + j]);
        }
        assert forall|j: int| q1 - a < j < q2 - a implies #[trigger] entry[j] != '"' by {
            assert(entry[j] == s[a + j]);
        }
        assert(entry[q1 - a] == s[q1] && entry[q2 - a] == s[q2]);
        names_stand_in_quotes(entry, q1 - a, q2 - a);
        assert(entry.subrange(q1 - a + 1, q2 - a) =~= name);
        every_entry_gives_its_name(entries);
        assert(quoted(entries[k]) == name);
    } else {
        let rest = os.drop_first();
        assert(rest.last() == os.last());
        assert forall|m: int| 0 <= m < rest.len() implies is_object(
            s,
            key,
            if m == 0 {
                close
            } else {
                rest[m - 1].2
            },
            #[trigger] rest[m],
        ) by {
            assert(rest[m] == os[m + 1]);
            assert(is_object(
                s,
                key,
                if m + 1 == 0 {
                    from
                } else {
                    os[m + 1 - 1].2
                },
                os[m + 1],
            ));
            if m > 0 {
                assert(rest[m - 1] == os[m]);
            }
        }
        every_key_of_an_object_is_named(s, key, close, rest, a, b, q1, q2);
    }
    lemma_in_sum(entry_names(entries), package_names(s, key, close), name);
}

proof fn lemma_short(names: Seq<Seq<char>>)
    ensures
        short_names(names) == names.filter_map(
            |n: Seq<char>|
                if n.len() != 0 && vstd::utf8::encode_utf8(n).len() < 64 {
                    Some(n)
                } else {
                    None
                },
        ),
        forall|k: int|
            0 <= k < names.len() && (#[trigger] names[k]).len() != 0 && vstd::utf8::encode_utf8(
                names[k],
            ).len() < 64 ==> short_names(names).contains(names[k]),
    decreases names.len(),
{
    if names.len() != 0 {
        let init = names.drop_last();
        lemma_short(init);
        let before = short_names(init);
        let all = short_names(names);
        assert forall|k: int|
            0 <= k < names.len() && (#[trigger] names[k]).len() != 0 && vstd::utf8::encode_utf8(
                names[k],
            ).len() < 64 implies all.contains(names[k]) by {
            if k < init.len() {
                assert(init[k] == names[k]);
                let i = choose|i: int| 0 <= i < before.len() && before[i] == names[k];
                assert(all[i] == before[i]);
            } else {
                assert(all[before.len() as int] == names[k]);
            }
        }
    }
}

/// Of the names in a manifest, those that are not empty and shorter than 64 bytes count, in
/// their order, and of these the first hundred.
pub proof fn the_first_hundred_names_count(fname: Seq<char>, s: Seq<char>)
    ensures
        ({
            let short = raw_names(fname, s).filter_map(
                |n: Seq<char>|
                    if n.len() != 0 && vstd::utf8::encode_utf8(n).len() < 64 {
                        Some(n)
                    } else {
                        None
                    },
            );
            dependencies(fname, s) == if short.len() > 100 {
                short.subrange(0, 100)
            } else {
                short
            }
        }),
{
    let short = short_names(raw_names(fname, s));
    lemma_short(raw_names(fname, s));
    if short.len() > 100 {
        assert(short.take(100) =~= short.subrange(0, 100));
    } else {
        assert(short.take(short.len() as int) =~= short);
    }
}

proof fn lemma_counted(fname: Seq<char>, s: Seq<char>, name: Seq<char>)
    requires
        raw_names(fname, s).contains(name),
        name.len() != 0,
        vstd::utf8::encode_utf8(name).len() < 64,
        dependencies(fname, s).len() < 100,
    ensures
        dependencies(fname, s).contains(name),
{
    let names = raw_names(fname, s);
    lemma_short(names);
    let k = choose|k: int| 0 <= k < names.len() && names[k] == name;
    assert(short_names(names).contains(names[k]));
    let short = short_names(names);
    assert(short.len() < 100);
    assert(text::first_n(short, 100) == short);
}

proof fn lemma_file_names_differ()
    ensures
        "Cargo.toml"@ != "go.mod"@,
        "Cargo.toml"@ != "package.json"@,
        "Cargo.toml"@ != "pyproject.toml"@,
        "go.mod"@ != "package.json"@,
        "go.mod"@ != "pyproject.toml"@,
        "package.json"@ != "pyproject.toml"@,
{
    reveal_strlit("Cargo.toml");
    reveal_strlit("go.mod");
    reveal_strlit("package.json");
    reveal_strlit("pyproject.toml");
    assert("Cargo.toml"@.len() == 10 && "go.mod"@.len() == 6);
    assert("package.json"@.len() == 12 && "pyproject.toml"@.len() == 14);
}

/// Every dependency of a package is named, whichever of the four sorts of dependency it is,
/// unless a hundred others come before it: each key of each object that follows one of the
/// quoted keys.
pub proof fn every_dependency_of_a_package_is_named(
    s: Seq<char>,
    key: Seq<char>,
    os: Seq<(int, int, int)>,
    a: int,
    b: int,
    q1: int,
    q2: int,
)
    requires
        key == "\"dependencies\""@ || key == "\"devDependencies\""@ || key
            == "\"peerDependencies\""@ || key == "\"optionalDependencies\""@,
        os.len() != 0,
        are_objects(s, key, 0, os),
        os.last().1 < a <= q1 < q2 < b <= os.last().2,
        a == os.last().1 + 1 || s[a - 1] == ',',
        b == os.last().2 || s[b] == ',',
        forall|j: int| a <= j < b ==> #[trigger] s[j] != ',',
        s[q1] == '"',
        s[q2] == '"',
        forall|j: int| a <= j < q1 ==> #[trigger] s[j] != '"',
        forall|j: int| q1 < j < q2 ==> #[trigger] s[j] != '"',
        q1 + 1 < q2,
        vstd::utf8::encode_utf8(s.subrange(q1 + 1, q2)).len() < 64,
        dependencies("package.json"@, s).len() < 100,
    ensures
        dependencies("package.json"@, s).contains(s.subrange(q1 + 1, q2)),
{
    let name = s.subrange(q1 + 1, q2);
    every_key_of_an_object_is_named(s, key, 0, os, a, b, q1, q2);
    packages_have_four_sorts_of_dependency(s);
    let n0 = package_names(s, "\"dependencies\""@, 0);
    let n1 = package_names(s, "\"devDependencies\""@, 0);
    let n2 = package_names(s, "\"peerDependencies\""@, 0);
    let n3 = package_names(s, "\"optionalDependencies\""@, 0);
    if n0.contains(name) || n1.contains(name) {
        lemma_in_sum(n0, n1, name);
    }
    if n0.contains(name) || n1.contains(name) || n2.contains(name) {
        lemma_in_sum(n0 + n1, n2, name);
    }
    lemma_in_sum(n0 + n1 + n2, n3, name);
    lemma_counted("package.json"@, s, name);
}

/// A package names nothing besides: its names are those of its four sorts of dependency, one
/// sort after the other.
pub proof fn packages_have_four_sorts_of_dependency(s: Seq<char>)
    ensures
        raw_names("package.json"@, s) == package_names(s, "\"dependencies\""@, 0) + package_names(
            s,
            "\"devDependencies\""@,
            0,
        ) + package_names(s, "\"peerDependencies\""@, 0) + package_names(
            s,
            "\"optionalDependencies\""@,
            0,
        ),
{
    lemma_file_names_differ();
    reveal_with_fuel(package_all, 5);
    let n0 = package_names(s, "\"dependencies\""@, 0);
    assert(package_all(s, 1) =~= n0);
    assert(package_all(s, 4) =~= n0 + package_names(s, "\"devDependencies\""@, 0) + package_names(
        s,
        "\"peerDependencies\""@,
        0,
    ) + package_names(s, "\"optionalDependencies\""@, 0));
}

/// Whether a line is the heading of a table, `[name]`.
pub open spec fn is_heading(l: Seq<char>) -> bool {
    l.len() >= 2 && l[0] == '[' && l[l.len() - 1] == ']'
}

/// The names of a list stay in it when one more is added.
proof fn lemma_with_name(names: Seq<Seq<char>>, name: Seq<char>)
    ensures
        forall|x: Seq<char>| #[trigger]
            with_name(names, name).contains(x) <==> names.contains(x) || (x == name && name.len()
                != 0),
{
    let all = with_name(names, name);
    assert forall|x: Seq<char>| #[trigger] all.contains(x) <==> names.contains(x) || (x == name
        && name.len() != 0) by {
        if names.contains(x) {
            let i = choose|i: int| 0 <= i < names.len() && names[i] == x;
            assert(all[i] == x);
        }
        if x == name && name.len() != 0 {
            assert(all[names.len() as int] == x);
        }
    }
}

proof fn lemma_cargo_stays(lines: Seq<Seq<char>>, x: Seq<char>)
    requires
        lines.len() != 0,
        cargo_names(lines.drop_last()).contains(x),
    ensures
        cargo_names(lines).contains(x),
{
    let l = text::trimmed(lines.last());
    let before = cargo_names(lines.drop_last());
    lemma_with_name(before, key_of(l));
    if let Some(h) = heading(l) {
        lemma_with_name(before, heading_dependency(h));
    }
}

proof fn lemma_mark(l: Seq<char>, mark: char)
    ensures
        text::has_prefix(l, seq![mark]) <==> l.len() != 0 && l[0] == mark,
{
    if l.len() != 0 {
        assert(l.subrange(0, 1)[0] == l[0]);
        if l[0] == mark {
            assert(l.subrange(0, 1) =~= seq![mark]);
        } else {
            assert(l.subrange(0, 1) != seq![mark]) by {
                assert(seq![mark][0] == mark);
            }
        }
    }
}

proof fn lemma_cargo_table(lines: Seq<Seq<char>>, i: int)
    requires
        0 <= i < lines.len(),
        is_heading(text::trimmed(lines[i])),
        ({
            let l = text::trimmed(lines[i]);
            opens_dependencies(text::trimmed(l.subrange(1, l.len() - 1)))
        }),
        forall|m: int| i < m < lines.len() ==> !is_heading(text::trimmed(#[trigger] lines[m])),
    ensures
        cargo_in_dependencies(lines),
    decreases lines.len(),
{
    let init = lines.drop_last();
    let l = text::trimmed(lines.last());
    reveal_strlit("#");
    assert("#"@ =~= seq!['#']);
    lemma_mark(l, '#');
    if i < init.len() {
        assert(init[i] == lines[i]);
        assert(lines[lines.len() - 1] == lines.last());
        assert forall|m: int| i < m < init.len() implies !is_heading(
            text::trimmed(#[trigger] init[m]),
        ) by {
            assert(init[m] == lines[m]);
        }
        lemma_cargo_table(init, i);
    }
}

/// In a `Cargo.toml` every entry of a table of dependencies is named: what stands before its
/// first `=` or blank.
pub proof fn cargo_entries_are_named(lines: Seq<Seq<char>>, i: int, j: int, k: int)
    requires
        0 <= i < j < lines.len(),
        is_heading(text::trimmed(lines[i])),
        ({
            let l = text::trimmed(lines[i]);
            let h = text::trimmed(l.subrange(1, l.len() - 1));
            !text::occurs(h, "dependencies."@) && (h == "dependencies"@ || text::has_suffix(
                h,
                "-dependencies"@,
            ) || text::has_suffix(h, ".dependencies"@))
        }),
        forall|m: int| i < m <= j ==> !is_heading(text::trimmed(#[trigger] lines[m])),
        text::trimmed(lines[j]).len() != 0,
        text::trimmed(lines[j])[0] != '#',
        0 <= k <= text::trimmed(lines[j]).len(),
        forall|m: int|
            0 <= m < k ==> #[trigger] text::trimmed(lines[j])[m] != '=' && text::trimmed(lines[j])[m]
                != ' ',
        k < text::trimmed(lines[j]).len() ==> text::trimmed(lines[j])[k] == '=' || text::trimmed(
            lines[j],
        )[k] == ' ',
        text::trimmed(text::trimmed(lines[j]).subrange(0, k)).len() != 0,
    ensures
        cargo_names(lines).contains(text::trimmed(text::trimmed(lines[j]).subrange(0, k))),
    decreases lines.len(),
{
    let init = lines.drop_last();
    let l = text::trimmed(lines[j]);
    if j < init.len() {
        assert(init[i] == lines[i] && init[j] == lines[j]);
        assert forall|m: int| i < m <= j implies !is_heading(text::trimmed(#[trigger] init[m])) by {
            assert(init[m] == lines[m]);
        }
        cargo_entries_are_named(init, i, j, k);
        lemma_cargo_stays(lines, text::trimmed(l.subrange(0, k)));
    } else {
        assert(init[i] == lines[i]);
        assert forall|m: int| i < m < init.len() implies !is_heading(
            text::trimmed(#[trigger] init[m]),
        ) by {
            assert(init[m] == lines[m]);
        }
        lemma_cargo_table(init, i);
        reveal_strlit("#");
        assert("#"@ =~= seq!['#']);
        lemma_mark(l, '#');
        assert(!is_heading(text::trimmed(lines[j])));
        text::lemma_first_index_is(l, CharClass::EqualsOrBlank, k);
        assert(l.take(k) =~= l.subrange(0, k));
        lemma_with_name(cargo_names(init), key_of(l));
    }
}

/// In a `Cargo.toml` a table like `[dependencies.name]` names a dependency by itself.
pub proof fn cargo_tables_are_named(lines: Seq<Seq<char>>, j: int, at: int)
    requires
        0 <= j < lines.len(),
        is_heading(text::trimmed(lines[j])),
        ({
            let l = text::trimmed(lines[j]);
            let h = text::trimmed(l.subrange(1, l.len() - 1));
            let name = text::trimmed_of(text::trimmed(h.skip(at + 13)), CharClass::Is('"'));
            text::last_occurrence(h, "dependencies."@, at) && name.len() != 0
        }),
    ensures
        ({
            let l = text::trimmed(lines[j]);
            let h = text::trimmed(l.subrange(1, l.len() - 1));
            let name = text::trimmed_of(text::trimmed(h.skip(at + 13)), CharClass::Is('"'));
            cargo_names(lines).contains(name)
        }),
    decreases lines.len(),
{
    let l = text::trimmed(lines[j]);
    let h = text::trimmed(l.subrange(1, l.len() - 1));
    let name = text::trimmed_of(text::trimmed(h.skip(at + 13)), CharClass::Is('"'));
    let init = lines.drop_last();
    if j < init.len() {
        assert(init[j] == lines[j]);
        cargo_tables_are_named(init, j, at);
        lemma_cargo_stays(lines, name);
    } else {
        reveal_strlit("#");
        assert("#"@ =~= seq!['#']);
        lemma_mark(l, '#');
        reveal_strlit("dependencies.");
        text::lemma_rfind_at(h, "dependencies."@, at);
        lemma_with_name(cargo_names(init), heading_dependency(h));
    }
}

/// A `Cargo.toml` without a heading that speaks of dependencies names none, whatever else it
/// says.
pub proof fn cargo_names_only_dependencies(lines: Seq<Seq<char>>)
    requires
        forall|m: int|
            0 <= m < lines.len() && is_heading(text::trimmed(#[trigger] lines[m]))
                ==> !text::occurs(lines[m], "dependencies"@),
    ensures
        cargo_names(lines).len() == 0,
        !cargo_in_dependencies(lines),
    decreases lines.len(),
{
    if lines.len() != 0 {
        let init = lines.drop_last();
        assert forall|m: int|
            0 <= m < init.len() && is_heading(text::trimmed(#[trigger] init[m])) implies !text::occurs(
            init[m],
            "dependencies"@,
        ) by {
            assert(init[m] == lines[m]);
        }
        cargo_names_only_dependencies(init);
        let raw = lines[lines.len() - 1];
        let l = text::trimmed(raw);
        if is_heading(l) {
            let (a, b) = text::trimming_takes_only_space(raw);
            let inner = l.subrange(1, l.len() - 1);
            let (x, y) = text::trimming_takes_only_space(inner);
            let h = text::trimmed(inner);
            assert(h =~= raw.subrange(a + 1 + x, a + 1 + y));
            let word = "dependencies"@;
            let p = a + 1 + x;
            reveal_strlit("dependencies");
            reveal_strlit("dependencies.");
            reveal_strlit("-dependencies");
            reveal_strlit(".dependencies");
            assert forall|i: int| !#[trigger] text::occurs_at(h, "dependencies."@, i) by {
                if text::occurs_at(h, "dependencies."@, i) {
                    let long = h.subrange(i, i + 13);
                    assert(long == "dependencies."@);
                    assert(raw.subrange(p + i, p + i + 12) =~= word) by {
                        assert forall|q: int| 0 <= q < 12 implies raw[p + i + q] == word[q] by {
                            assert(long[q] == raw[p + i + q]);
                        }
                    }
                    assert(text::occurs_at(raw, word, p + i));
                }
            }
            if h == word {
                assert(raw.subrange(p, p + 12) =~= word);
                assert(text::occurs_at(raw, word, p));
            }
            if text::has_suffix(h, "-dependencies"@) || text::has_suffix(h, ".dependencies"@) {
                let i = h.len() - 13;
                let long = h.subrange(i, i + 13);
                assert(long == "-dependencies"@ || long == ".dependencies"@);
                assert(raw.subrange(p + i + 1, p + i + 13) =~= word) by {
                    assert forall|q: int| 0 <= q < 12 implies raw[p + i + 1 + q] == word[q] by {
                        assert(long[q + 1] == raw[p + i + 1 + q]);
                    }
                }
                assert(text::occurs_at(raw, word, p + i + 1));
            }
            assert(!text::occurs(h, "dependencies."@));
            assert(heading(l) == Some(h));
            assert(heading_dependency(h) == Seq::<char>::empty());
            assert(!opens_dependencies(h));
        }
    }
}

proof fn lemma_go_stays(lines: Seq<Seq<char>>, x: Seq<char>)
    requires
        lines.len() != 0,
        go_names(lines.drop_last()).contains(x),
    ensures
        go_names(lines).contains(x),
{
    let before = go_names(lines.drop_last());
    let all = go_names(lines);
    let i = choose|i: int| 0 <= i < before.len() && before[i] == x;
    assert(all[i] == x);
}

proof fn lemma_first_word(s: Seq<char>, a: int, b: int)
    requires
        0 <= a < b <= s.len(),
        forall|m: int| 0 <= m < a ==> text::is_space(#[trigger] s[m]),
        forall|m: int| a <= m < b ==> !text::is_space(#[trigger] s[m]),
        b < s.len() ==> text::is_space(s[b]),
    ensures
        text::first_word(s) == Some(s.subrange(a, b)),
    decreases a,
{
    let class = CharClass::Space;
    if a == 0 {
        assert forall|m: int| 0 <= m < b implies !class.has(#[trigger] s[m]) by {}
        text::lemma_first_index_is(s, class, b);
        assert(s.take(b) =~= s.subrange(0, b));
        assert(text::runs(s, class)[0] == s.take(b));
    } else {
        let t = s.drop_first();
        assert(class.has(s[0]));
        assert forall|m: int| 0 <= m < a - 1 implies text::is_space(#[trigger] t[m]) by {
            assert(t[m] == s[m + 1]);
        }
        assert forall|m: int| a - 1 <= m < b - 1 implies !text::is_space(#[trigger] t[m]) by {
            assert(t[m] == s[m + 1]);
        }
        lemma_first_word(t, a - 1, b - 1);
        assert(t.subrange(a - 1, b - 1) =~= s.subrange(a, b));
    }
}

proof fn lemma_go_block(lines: Seq<Seq<char>>, i: int)
    requires
        0 <= i < lines.len(),
        text::has_prefix(text::trimmed(lines[i]), "require ("@),
        !go_in_block(lines.take(i)),
        forall|m: int|
            i < m < lines.len() ==> text::trimmed(#[trigger] lines[m]).len() == 0 || text::trimmed(
                lines[m],
            )[0] != ')',
    ensures
        go_in_block(lines),
    decreases lines.len(),
{
    let init = lines.drop_last();
    let l = text::trimmed(lines.last());
    reveal_strlit(")");
    reveal_strlit("//");
    reveal_strlit("require (");
    assert(")"@ =~= seq![')']);
    lemma_mark(l, ')');
    if i < init.len() {
        assert(init[i] == lines[i]);
        assert(init.take(i) =~= lines.take(i));
        assert forall|m: int| i < m < init.len() implies text::trimmed(#[trigger] init[m]).len()
            == 0 || text::trimmed(init[m])[0] != ')' by {
            assert(init[m] == lines[m]);
        }
        lemma_go_block(init, i);
        assert(lines[lines.len() - 1] == lines.last());
    } else {
        assert(init =~= lines.take(i));
        assert(l.subrange(0, 9)[0] == l[0]);
        assert("require ("@[0] == 'r' && "//"@[0] == '/');
        if text::has_prefix(l, "//"@) {
            assert(l.subrange(0, 2)[0] == l[0]);
        }
    }
}

/// In a `go.mod` every line of a `require` block names a module: its first word.
pub proof fn go_blocks_are_named(lines: Seq<Seq<char>>, i: int, j: int, b: int)
    requires
        0 <= i < j < lines.len(),
        text::has_prefix(text::trimmed(lines[i]), "require ("@),
        !go_in_block(lines.take(i)),
        forall|m: int|
            i < m <= j ==> text::trimmed(#[trigger] lines[m]).len() == 0 || text::trimmed(lines[m])[0]
                != ')',
        !text::has_prefix(text::trimmed(lines[j]), "//"@),
        0 < b <= text::trimmed(lines[j]).len(),
        forall|m: int| 0 <= m < b ==> !text::is_space(#[trigger] text::trimmed(lines[j])[m]),
        b < text::trimmed(lines[j]).len() ==> text::is_space(text::trimmed(lines[j])[b]),
    ensures
        go_names(lines).contains(text::trimmed(lines[j]).subrange(0, b)),
    decreases lines.len(),
{
    let init = lines.drop_last();
    let l = text::trimmed(lines[j]);
    if j < init.len() {
        assert(init[i] == lines[i] && init[j] == lines[j]);
        assert(init.take(i) =~= lines.take(i));
        assert forall|m: int| i < m <= j implies text::trimmed(#[trigger] init[m]).len() == 0
            || text::trimmed(init[m])[0] != ')' by {
            assert(init[m] == lines[m]);
        }
        go_blocks_are_named(init, i, j, b);
        lemma_go_stays(lines, l.subrange(0, b));
    } else {
        assert(init[i] == lines[i]);
        assert(init.take(i) =~= lines.take(i));
        assert forall|m: int| i < m < init.len() implies text::trimmed(#[trigger] init[m]).len()
            == 0 || text::trimmed(init[m])[0] != ')' by {
            assert(init[m] == lines[m]);
        }
        lemma_go_block(init, i);
        reveal_strlit(")");
        assert(")"@ =~= seq![')']);
        lemma_mark(l, ')');
        lemma_first_word(l, 0, b);
        let before = go_names(init);
        assert(go_names(lines)[before.len() as int] == l.subrange(0, b));
    }
}

/// In a `go.mod` a single `require` names a module: the word that follows it.
pub proof fn go_requires_are_named(lines: Seq<Seq<char>>, j: int, a: int, b: int)
    requires
        0 <= j < lines.len(),
        !go_in_block(lines.take(j)),
        text::has_prefix(text::trimmed(lines[j]), "require "@),
        8 <= a < b <= text::trimmed(lines[j]).len(),
        text::trimmed(lines[j])[8] != '(',
        forall|m: int| 8 <= m < a ==> text::is_space(#[trigger] text::trimmed(lines[j])[m]),
        forall|m: int| a <= m < b ==> !text::is_space(#[trigger] text::trimmed(lines[j])[m]),
        b < text::trimmed(lines[j]).len() ==> text::is_space(text::trimmed(lines[j])[b]),
    ensures
        go_names(lines).contains(text::trimmed(lines[j]).subrange(a, b)),
    decreases lines.len(),
{
    let init = lines.drop_last();
    let l = text::trimmed(lines[j]);
    if j < init.len() {
        assert(init[j] == lines[j]);
        assert(init.take(j) =~= lines.take(j));
        go_requires_are_named(init, j, a, b);
        lemma_go_stays(lines, l.subrange(a, b));
    } else {
        assert(init =~= lines.take(j));
        reveal_strlit("require ");
        reveal_strlit("require (");
        reveal_strlit("//");
        assert(l.subrange(0, 8)[0] == l[0]);
        assert("require "@[0] == 'r' && "//"@[0] == '/');
        if text::has_prefix(l, "//"@) {
            assert(l.subrange(0, 2)[0] == l[0]);
        }
        if text::has_prefix(l, "require ("@) {
            assert(l.subrange(0, 9)[8] == l[8]);
            assert("require ("@[8] == '(');
        }
        let t = l.skip(8);
        assert forall|m: int| 0 <= m < a - 8 implies text::is_space(#[trigger] t[m]) by {
            assert(t[m] == l[m + 8]);
        }
        assert forall|m: int| a - 8 <= m < b - 8 implies !text::is_space(#[trigger] t[m]) by {
            assert(t[m] == l[m + 8]);
        }
        lemma_first_word(t, a - 8, b - 8);
        assert(t.subrange(a - 8, b - 8) =~= l.subrange(a, b));
        let before = go_names(init);
        assert(go_names(lines)[before.len() as int] == l.subrange(a, b));
    }
}

/// A `go.mod` without a line that starts with `require` names no module.
pub proof fn go_names_only_requirements(lines: Seq<Seq<char>>)
    requires
        forall|m: int|
            0 <= m < lines.len() ==> !text::has_prefix(
                text::trimmed(#[trigger] lines[m]),
                "require "@,
            ),
    ensures
        go_names(lines).len() == 0,
        !go_in_block(lines),
    decreases lines.len(),
{
    if lines.len() != 0 {
        let init = lines.drop_last();
        assert forall|m: int| 0 <= m < init.len() implies !text::has_prefix(
            text::trimmed(#[trigger] init[m]),
            "require "@,
        ) by {
            assert(init[m] == lines[m]);
        }
        go_names_only_requirements(init);
        let l = text::trimmed(lines[lines.len() - 1]);
        reveal_strlit("require ");
        reveal_strlit("require (");
        if text::has_prefix(l, "require ("@) {
            assert("require ("@.subrange(0, 8) =~= "require "@);
            assert(l.subrange(0, 9).subrange(0, 8) =~= l.subrange(0, 8));
        }
    }
}

proof fn lemma_py_stays(lines: Seq<Seq<char>>, x: Seq<char>)
    requires
        lines.len() != 0,
        py_names(lines.drop_last()).contains(x),
    ensures
        py_names(lines).contains(x),
{
    let before = py_names(lines.drop_last());
    let all = py_names(lines);
    let i = choose|i: int| 0 <= i < before.len() && before[i] == x;
    assert(all[i] == x);
}

proof fn lemma_poetry_table(lines: Seq<Seq<char>>, i: int)
    requires
        0 <= i < lines.len(),
        is_heading(text::trimmed(lines[i])),
        ({
            let l = text::trimmed(lines[i]);
            let h = text::trimmed(l.subrange(1, l.len() - 1));
            text::has_prefix(h, "tool.poetry"@) && text::has_suffix(h, "dependencies"@)
        }),
        forall|m: int| i < m < lines.len() ==> !is_heading(text::trimmed(#[trigger] lines[m])),
    ensures
        py_state(lines).poetry,
    decreases lines.len(),
{
    let init = lines.drop_last();
    let l = text::trimmed(lines.last());
    reveal_strlit("#");
    assert("#"@ =~= seq!['#']);
    lemma_mark(l, '#');
    if i < init.len() {
        assert(init[i] == lines[i]);
        assert(lines[lines.len() - 1] == lines.last());
        assert forall|m: int| i < m < init.len() implies !is_heading(
            text::trimmed(#[trigger] init[m]),
        ) by {
            assert(init[m] == lines[m]);
        }
        lemma_poetry_table(init, i);
    }
}

/// In a `pyproject.toml` every entry of a table of Poetry's dependencies is named, but for the
/// interpreter itself.
pub proof fn poetry_entries_are_named(lines: Seq<Seq<char>>, i: int, j: int, k: int)
    requires
        0 <= i < j < lines.len(),
        is_heading(text::trimmed(lines[i])),
        ({
            let l = text::trimmed(lines[i]);
            let h = text::trimmed(l.subrange(1, l.len() - 1));
            text::has_prefix(h, "tool.poetry"@) && text::has_suffix(h, "dependencies"@)
        }),
        forall|m: int| i < m <= j ==> !is_heading(text::trimmed(#[trigger] lines[m])),
        text::trimmed(lines[j]).len() != 0,
        text::trimmed(lines[j])[0] != '#',
        0 <= k <= text::trimmed(lines[j]).len(),
        forall|m: int|
            0 <= m < k ==> #[trigger] text::trimmed(lines[j])[m] != '=' && text::trimmed(lines[j])[m]
                != ' ',
        k < text::trimmed(lines[j]).len() ==> text::trimmed(lines[j])[k] == '=' || text::trimmed(
            lines[j],
        )[k] == ' ',
    ensures
        ({
            let name = text::trimmed_of(
                text::trimmed(text::trimmed(lines[j]).subrange(0, k)),
                CharClass::Is('"'),
            );
            name.len() != 0 && name != "python"@ ==> py_names(lines).contains(name)
        }),
    decreases lines.len(),
{
    let init = lines.drop_last();
    let l = text::trimmed(lines[j]);
    let name = text::trimmed_of(text::trimmed(l.subrange(0, k)), CharClass::Is('"'));
    if j < init.len() {
        assert(init[i] == lines[i] && init[j] == lines[j]);
        assert forall|m: int| i < m <= j implies !is_heading(text::trimmed(#[trigger] init[m])) by {
            assert(init[m] == lines[m]);
        }
        poetry_entries_are_named(init, i, j, k);
        if name.len() != 0 && name != "python"@ {
            lemma_py_stays(lines, name);
        }
    } else {
        assert(init[i] == lines[i]);
        assert forall|m: int| i < m < init.len() implies !is_heading(
            text::trimmed(#[trigger] init[m]),
        ) by {
            assert(init[m] == lines[m]);
        }
        lemma_poetry_table(init, i);
        reveal_strlit("#");
        assert("#"@ =~= seq!['#']);
        lemma_mark(l, '#');
        assert(!is_heading(text::trimmed(lines[j])));
        text::lemma_first_index_is(l, CharClass::EqualsOrBlank, k);
        assert(l.take(k) =~= l.subrange(0, k));
        lemma_with_name(py_names(init), poetry_name(l));
    }
}

/// Every requirement in quotes on a line gives the name that it starts with.
pub proof fn requirements_are_named(s: Seq<char>, q1: int, q2: int, k: int)
    requires
        0 <= q1 <= k <= q2 < s.len(),
        s[q1] == '"',
        s[q2] == '"',
        forall|j: int| 0 <= j < q1 ==> #[trigger] s[j] != '"',
        forall|j: int| q1 < j < q2 ==> #[trigger] s[j] != '"',
        q1 < k,
        forall|j: int|
            q1 < j < k ==> text::is_word(#[trigger] s[j]) || s[j] == '-' || s[j] == '_' || s[j]
                == '.',
        k < q2 ==> !(text::is_word(s[k]) || s[k] == '-' || s[k] == '_' || s[k] == '.'),
    ensures
        requirement_names(s) == (if q1 + 1 < k {
            seq![s.subrange(q1 + 1, k)]
        } else {
            Seq::empty()
        }) + requirement_names(s.skip(q2 + 1)),
{
    text::lemma_first_index_is(s, CharClass::Is('"'), q1);
    let after = s.skip(q1 + 1);
    let n = q2 - q1 - 1;
    assert forall|j: int| 0 <= j < n implies !CharClass::Is('"').has(#[trigger] after[j]) by {
        assert(after[j] == s[q1 + 1 + j]);
    }
    assert(after[n] == s[q2]);
    text::lemma_first_index_is(after, CharClass::Is('"'), n);
    let spec_text = after.take(n);
    assert forall|j: int| 0 <= j < k - q1 - 1 implies !CharClass::NonPackageName.has(
        #[trigger] spec_text[j],
    ) by {
        assert(spec_text[j] == s[q1 + 1 + j]);
    }
    if k < q2 {
        assert(spec_text[k - q1 - 1] == s[k]);
    }
    text::lemma_first_index_is(spec_text, CharClass::NonPackageName, k - q1 - 1);
    assert(spec_text.take(k - q1 - 1) =~= s.subrange(q1 + 1, k));
    assert(after.skip(n + 1) =~= s.skip(q2 + 1));
    assert(with_name(Seq::empty(), s.subrange(q1 + 1, k)) =~= if q1 + 1 < k {
        seq![s.subrange(q1 + 1, k)]
    } else {
        Seq::empty()
    });
}

/// In a `pyproject.toml` the requirements of an array of dependencies are all named: those on
/// the line that opens it, and those on every line up to the bracket that closes it.
pub proof fn arrays_are_named(lines: Seq<Seq<char>>, x: Seq<char>)
    requires
        lines.len() != 0,
        text::trimmed(lines.last()).len() != 0,
        text::trimmed(lines.last())[0] != '#',
        !is_heading(text::trimmed(lines.last())),
        !py_state(lines.drop_last()).poetry,
        py_state(lines.drop_last()).array || (text::has_prefix(
            text::trimmed(lines.last()),
            "dependencies"@,
        ) && text::trimmed(lines.last()).contains('=') && text::trimmed(lines.last()).contains('[')),
    ensures
        requirement_names(text::trimmed(lines.last())).contains(x) ==> py_names(lines).contains(x),
        py_state(lines).array <==> !text::trimmed(lines.last()).contains(']'),
        !py_state(lines).poetry,
{
    let l = text::trimmed(lines.last());
    let at = py_state(lines.drop_last());
    reveal_strlit("#");
    assert("#"@ =~= seq!['#']);
    lemma_mark(l, '#');
    if !at.array {
        let i = choose|i: int| 0 <= i < l.len() && l[i] == '=';
        let j = choose|j: int| 0 <= j < l.len() && l[j] == '[';
        assert(CharClass::Is('=').has(l[i]) && CharClass::Is('[').has(l[j]));
    }
    assert(text::has_class(l, CharClass::Is(']')) <==> l.contains(']')) by {
        if l.contains(']') {
            let i = choose|i: int| 0 <= i < l.len() && l[i] == ']';
            assert(CharClass::Is(']').has(l[i]));
        }
    }
    if requirement_names(l).contains(x) {
        lemma_in_sum(py_names(lines.drop_last()), requirement_names(l), x);
    }
}

/// What was named on earlier lines of a manifest stays named, whatever follows.
pub proof fn names_stay(lines: Seq<Seq<char>>, x: Seq<char>)
    requires
        lines.len() != 0,
    ensures
        cargo_names(lines.drop_last()).contains(x) ==> cargo_names(lines).contains(x),
        go_names(lines.drop_last()).contains(x) ==> go_names(lines).contains(x),
        py_names(lines.drop_last()).contains(x) ==> py_names(lines).contains(x),
{
    if cargo_names(lines.drop_last()).contains(x) {
        lemma_cargo_stays(lines, x);
    }
    if go_names(lines.drop_last()).contains(x) {
        lemma_go_stays(lines, x);
    }
    if py_names(lines.drop_last()).contains(x) {
        lemma_py_stays(lines, x);
    }
}

/// Which manifest is read how: by its name. Any other file names nothing.
pub proof fn manifests_are_known_by_name(fname: Seq<char>, s: Seq<char>)
    ensures
        raw_names("Cargo.toml"@, s) == cargo_names(text::lines(s)),
        raw_names("go.mod"@, s) == go_names(text::lines(s)),
        raw_names("pyproject.toml"@, s) == py_names(text::lines(s)),
        is_manifest(fname) <==> seq![
            "Cargo.toml"@,
            "package.json"@,
            "go.mod"@,
            "pyproject.toml"@,
        ].contains(fname),
        !is_manifest(fname) ==> dependencies(fname, s).len() == 0,
{
    lemma_file_names_differ();
    let all = seq!["Cargo.toml"@, "package.json"@, "go.mod"@, "pyproject.toml"@];
    assert(all[0] == "Cargo.toml"@ && all[1] == "package.json"@ && all[2] == "go.mod"@ && all[3]
        == "pyproject.toml"@);
}

/// Every name that is counted is not empty, shorter than 64 bytes, and stands in the manifest.
pub proof fn counted_names_are_short(fname: Seq<char>, s: Seq<char>, i: int)
    requires
        0 <= i < dependencies(fname, s).len(),
    ensures
        dependencies(fname, s)[i].len() != 0,
        vstd::utf8::encode_utf8(dependencies(fname, s)[i]).len() < 64,
        raw_names(fname, s).contains(dependencies(fname, s)[i]),
{
    lemma_short_sound(raw_names(fname, s), i);
}

proof fn lemma_short_sound(names: Seq<Seq<char>>, i: int)
    requires
        0 <= i < short_names(names).len(),
    ensures
        short_names(names)[i].len() != 0,
        vstd::utf8::encode_utf8(short_names(names)[i]).len() < 64,
        names.contains(short_names(names)[i]),
    decreases names.len(),
{
    let init = names.drop_last();
    let before = short_names(init);
    if i < before.len() {
        lemma_short_sound(init, i);
        let k = choose|k: int| 0 <= k < init.len() && init[k] == before[i];
        assert(names[k] == before[i]);
    } else {
        assert(names[names.len() - 1] == short_names(names)[i]);
    }
}

/// Blank lines and comments name nothing and open nothing.
pub proof fn comments_name_nothing(lines: Seq<Seq<char>>)
    requires
        lines.len() != 0,
    ensures
        text::trimmed(lines.last()).len() == 0 || text::trimmed(lines.last())[0] == '#' ==> cargo_names(
            lines,
        ) == cargo_names(lines.drop_last()) && cargo_in_dependencies(lines)
            == cargo_in_dependencies(lines.drop_last()) && py_names(lines) == py_names(
            lines.drop_last(),
        ) && py_state(lines) == py_state(lines.drop_last()),
        text::trimmed(lines.last()).len() == 0 || (text::trimmed(lines.last()).len() >= 2
            && text::trimmed(lines.last())[0] == '/' && text::trimmed(lines.last())[1] == '/')
            ==> go_names(lines) == go_names(lines.drop_last()) && go_in_block(lines) == go_in_block(
            lines.drop_last(),
        ),
{
    let l = text::trimmed(lines.last());
    reveal_strlit("#");
    reveal_strlit("//");
    assert("#"@ =~= seq!['#']);
    lemma_mark(l, '#');
    if l.len() >= 2 && l[0] == '/' && l[1] == '/' {
        assert(l.subrange(0, 2) =~= "//"@);
    }
}

/// Outside a table of dependencies an entry of a `Cargo.toml` names nothing: not before the
/// first heading, and not behind one that does not speak of dependencies.
pub proof fn other_entries_name_nothing(lines: Seq<Seq<char>>, h: Seq<char>)
    requires
        lines.len() != 0,
    ensures
        !is_heading(text::trimmed(lines.last())) && !cargo_in_dependencies(lines.drop_last())
            ==> cargo_names(lines) == cargo_names(lines.drop_last()) && !cargo_in_dependencies(lines),
        is_heading(text::trimmed(lines.last())) && h == text::trimmed(
            text::trimmed(lines.last()).subrange(1, text::trimmed(lines.last()).len() - 1),
        ) && !text::occurs(h, "dependencies."@) ==> cargo_names(lines) == cargo_names(
            lines.drop_last(),
        ) && (cargo_in_dependencies(lines) <==> h == "dependencies"@ || text::has_suffix(
            h,
            "-dependencies"@,
        ) || text::has_suffix(h, ".dependencies"@)),
        is_heading(text::trimmed(lines.last())) && h == text::trimmed(
            text::trimmed(lines.last()).subrange(1, text::trimmed(lines.last()).len() - 1),
        ) && text::occurs(h, "dependencies."@) ==> !cargo_in_dependencies(lines),
        !cargo_in_dependencies(Seq::empty()),
        cargo_names(Seq::empty()).len() == 0,
{
    let l = text::trimmed(lines.last());
    reveal_strlit("#");
    assert("#"@ =~= seq!['#']);
    lemma_mark(l, '#');
}

/// Outside a block a line of a `go.mod` that does not start with `require` names nothing, and the
/// line that closes a block does not either.
pub proof fn other_lines_name_nothing(lines: Seq<Seq<char>>)
    requires
        lines.len() != 0,
        !text::has_prefix(text::trimmed(lines.last()), "//"@),
    ensures
        !go_in_block(lines.drop_last()) && !text::has_prefix(
            text::trimmed(lines.last()),
            "require "@,
        ) ==> go_names(lines) == go_names(lines.drop_last()) && !go_in_block(lines),
        go_in_block(lines.drop_last()) && text::trimmed(lines.last()).len() != 0 && text::trimmed(
            lines.last(),
        )[0] == ')' ==> go_names(lines) == go_names(lines.drop_last()) && !go_in_block(lines),
{
    let l = text::trimmed(lines.last());
    reveal_strlit(")");
    reveal_strlit("require ");
    reveal_strlit("require (");
    assert(")"@ =~= seq![')']);
    lemma_mark(l, ')');
    if text::has_prefix(l, "require ("@) {
        assert("require ("@.subrange(0, 8) =~= "require "@);
        assert(l.subrange(0, 9).subrange(0, 8) =~= l.subrange(0, 8));
    }
}

/// In a `pyproject.toml` a heading names nothing and closes an array; outside the tables and
/// arrays of dependencies a line names nothing.
pub proof fn other_tables_name_nothing(lines: Seq<Seq<char>>, h: Seq<char>)
    requires
        lines.len() != 0,
    ensures
        is_heading(text::trimmed(lines.last())) && h == text::trimmed(
            text::trimmed(lines.last()).subrange(1, text::trimmed(lines.last()).len() - 1),
        ) ==> py_names(lines) == py_names(lines.drop_last()) && !py_state(lines).array && (py_state(
            lines,
        ).poetry <==> text::has_prefix(h, "tool.poetry"@) && text::has_suffix(h, "dependencies"@)),
        !is_heading(text::trimmed(lines.last())) && !py_state(lines.drop_last()).poetry && !py_state(
            lines.drop_last(),
        ).array && !text::has_prefix(text::trimmed(lines.last()), "dependencies"@) ==> py_names(lines)
            == py_names(lines.drop_last()) && !py_state(lines).poetry && !py_state(lines).array,
        !py_state(Seq::empty()).poetry,
        !py_state(Seq::empty()).array,
        py_names(Seq::empty()).len() == 0,
{
    let l = text::trimmed(lines.last());
    reveal_strlit("#");
    assert("#"@ =~= seq!['#']);
    lemma_mark(l, '#');
}

/// A requirement needs two quotes, and Poetry's entry for the interpreter is no dependency.
pub proof fn some_entries_are_no_dependencies(s: Seq<char>, q: int, l: Seq<char>, lines: Seq<Seq<char>>)
    ensures
        (forall|j: int| 0 <= j < s.len() && j != q ==> #[trigger] s[j] != '"')
            ==> requirement_names(s).len() == 0,
        text::trimmed_of(key_of(l), CharClass::Is('"')) == "python"@ ==> poetry_name(l).len() == 0,
        text::trimmed_of(key_of(l), CharClass::Is('"')) != "python"@ ==> poetry_name(l)
            == text::trimmed_of(key_of(l), CharClass::Is('"')),
        lines.len() != 0 && !is_heading(text::trimmed(lines.last())) && !py_state(
            lines.drop_last(),
        ).poetry && !py_state(lines.drop_last()).array && (!text::trimmed(lines.last()).contains('=')
            || !text::trimmed(lines.last()).contains('[')) ==> py_names(lines) == py_names(
            lines.drop_last(),
        ),
        lines.len() != 0 && text::trimmed(lines.last()).len() != 0 && !is_heading(
            text::trimmed(lines.last()),
        ) && py_state(lines.drop_last()).poetry ==> py_names(lines).len() <= py_names(
            lines.drop_last(),
        ).len() + 1 && py_state(lines).poetry,
{
    if forall|j: int| 0 <= j < s.len() && j != q ==> #[trigger] s[j] != '"' {
        no_quotes_no_name(s, q);
        text::lemma_first_index(s, CharClass::Is('"'));
        let q1 = text::first_index(s, CharClass::Is('"'));
        let after = s.skip(q1 + 1);
        text::lemma_first_index(after, CharClass::Is('"'));
        let q2 = text::first_index(after, CharClass::Is('"'));
        if q1 < s.len() && q2 < after.len() {
            assert(after[q2] == s[q1 + 1 + q2]);
            assert(CharClass::Is('"').has(after[q2]));
        }
    }
    if lines.len() != 0 {
        let t = text::trimmed(lines.last());
        reveal_strlit("#");
        assert("#"@ =~= seq!['#']);
        lemma_mark(t, '#');
        if !t.contains('=') {
            assert(!text::has_class(t, CharClass::Is('=')));
        }
        if !t.contains('[') {
            assert(!text::has_class(t, CharClass::Is('[')));
        }
    }
}

/// A dependency key without an object behind it names nothing.
pub proof fn no_object_no_names(s: Seq<char>, key: Seq<char>, at: int)
    requires
        text::first_occurrence(s, key, at),
        forall|j: int| at <= j < s.len() ==> #[trigger] s[j] != '{',
    ensures
        package_names(s, key, 0).len() == 0,
{
    assert(s.skip(0) =~= s);
    text::lemma_find_at(s, key, at);
    let rest = s.skip(at);
    text::lemma_first_index(rest, CharClass::Is('{'));
    let i = text::first_index(rest, CharClass::Is('{'));
    if i < rest.len() {
        assert(rest[i] == s[at + i]);
        assert(CharClass::Is('{').has(rest[i]));
    }
}

} // verus!
