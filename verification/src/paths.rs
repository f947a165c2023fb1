//! Paths as text.

use vstd::prelude::*;

use crate::text;
use crate::text::CharClass;

verus! {

/// What follows the last separator.
pub open spec fn base_of(p: Seq<char>) -> Seq<char> {
    p.skip(text::after_last(p, CharClass::PathSep))
}

/// The last component of a path.
pub fn basename(p: &str) -> (r: String)
    ensures
        r@ == base_of(p@),
{
    let s = text::chars_of(p);
    let at: usize = text::find_after_last(&s, CharClass::PathSep);
    let out = text::part(&s, at, s.len());
    assert(out@ =~= s@.skip(at as int));
    text::string_of(&out)
}

/// The extension of a file name: what follows its last dot, unless that dot comes first.
pub open spec fn extension_of(name: Seq<char>) -> Option<Seq<char>> {
    let at = text::after_last(name, CharClass::Is('.'));
    if at <= 1 {
        None
    } else {
        Some(name.skip(at))
    }
}

/// The extension of a file name.
pub fn extension(name: &str) -> (r: Option<String>)
    ensures
        crate::model::opt(r) == extension_of(name@),
{
    let s = text::chars_of(name);
    let at: usize = text::find_after_last(&s, CharClass::Is('.'));
    if at <= 1 {
        return None;
    }
    let out = text::part(&s, at, s.len());
    assert(out@ =~= s@.skip(at as int));
    Some(text::string_of(&out))
}

/// The path with `/` for every `\\`.
pub open spec fn forward(p: Seq<char>) -> Seq<char> {
    p.map_values(
        |c: char|
            if c == '\\' {
                '/'
            } else {
                c
            },
    )
}

/// Turns every `\\` into `/`.
pub fn forward_slashes(p: &str) -> (r: String)
    ensures
        r@ == forward(p@),
{
    let s = text::chars_of(p);
    let mut out: Vec<char> = Vec::new();
    let n: usize = s.len();
    for i in 0..n
        invariant
            n == s@.len(),
            out@ == forward(s@.take(i as int)),
    {
        let c = if s[i] == '\\' {
            '/'
        } else {
            s[i]
        };
        out.push(c);
        assert(forward(s@.take(i + 1)) =~= forward(s@.take(i as int)).push(c));
    }
    assert(s@.take(n as int) =~= s@);
    text::string_of(&out)
}

/// A path below a root: what follows the root, without leading separators.
pub open spec fn below(root: Seq<char>, p: Seq<char>) -> Seq<char> {
    text::trimmed_start(p.skip(root.len() as int), CharClass::PathSep)
}

/// Whether a path is a root or lies below it: the root ends where a part of the path does. The
/// empty root has every path below it.
pub open spec fn is_inside(root: Seq<char>, p: Seq<char>) -> bool {
    text::has_prefix(p, root) && {
        ||| root.len() == 0
        ||| p.len() == root.len()
        ||| CharClass::PathSep.has(p[root.len() as int])
        ||| CharClass::PathSep.has(root.last())
    }
}

/// A touched path relative to a repository: taken from its canonical form, or else from the
/// path as it was written, where one of them lies inside the root; otherwise the path as it
/// was written, with forward slashes.
pub open spec fn relative(repo: Option<Seq<char>>, touched: Seq<char>, canonical: Seq<char>) -> Seq<
    char,
> {
    match repo {
        Some(root) => if is_inside(root, canonical) {
            below(root, canonical)
        } else if is_inside(root, touched) {
            below(root, touched)
        } else {
            forward(touched)
        },
        None => forward(touched),
    }
}

fn strip_root(root: &str, p: &str) -> (r: Option<String>)
    ensures
        match r {
            Some(t) => is_inside(root@, p@) && t@ == below(root@, p@),
            None => !is_inside(root@, p@),
        },
{
    let s = text::chars_of(p);
    if !text::starts_with(&s, root) {
        return None;
    }
    let r = text::chars_of(root);
    let k: usize = r.len();
    let apart: bool = k == 0 || k == s.len() || CharClass::PathSep.test(s[k])
        || CharClass::PathSep.test(r[k - 1]);
    if !apart {
        return None;
    }
    let rest = text::part(&s, k, s.len());
    assert(rest@ =~= s@.skip(k as int));
    Some(text::string_of(&text::trim_start(&rest, CharClass::PathSep)))
}

/// Makes a touched path relative to a repository. Both the root and `canonical` are in
/// canonical form; `touched` is the path as it was written.
pub fn rel_path(repo: Option<&str>, touched: &str, canonical: &str) -> (r: String)
    ensures
        r@ == relative(
            match repo {
                Some(root) => Some(root@),
                None => None,
            },
            touched@,
            canonical@,
        ),
{
    match repo {
        Some(root) => {
            if let Some(t) = strip_root(root, canonical) {
                return t;
            }
            if let Some(t) = strip_root(root, touched) {
                return t;
            }
        },
        None => {},
    }
    forward_slashes(touched)
}

// ---------------------------------------------------------------------------
// Laws
// ---------------------------------------------------------------------------

/// The extension of a name is what stands behind its last dot.
pub proof fn extension_is_behind_the_dot(stem: Seq<char>, ext: Seq<char>)
    requires
        stem.len() != 0,
        forall|i: int| 0 <= i < ext.len() ==> #[trigger] ext[i] != '.',
    ensures
        extension_of(stem.push('.') + ext) == Some(ext),
{
    let name = stem.push('.') + ext;
    let at = stem.len() as int + 1;
    assert forall|j: int| at <= j < name.len() implies !CharClass::Is('.').has(
        #[trigger] name[j],
    ) by {
        assert(name[j] == ext[j - at]);
    }
    assert(name[at - 1] == '.');
    text::lemma_after_last_is(name, CharClass::Is('.'), at);
    assert(name.skip(at) =~= ext);
}

/// A name without a dot has no extension, and neither has one that only starts with a dot.
pub proof fn no_dot_no_extension(name: Seq<char>)
    requires
        forall|i: int| 1 <= i < name.len() ==> #[trigger] name[i] != '.',
    ensures
        extension_of(name) is None,
{
    text::lemma_after_last(name, CharClass::Is('.'));
    let at = text::after_last(name, CharClass::Is('.'));
    if at > 1 {
        assert(CharClass::Is('.').has(name[at - 1]));
    }
}

/// The last part of a path is what stands behind its last separator, of either sort.
pub proof fn last_part_is_behind_the_separator(dir: Seq<char>, sep: char, name: Seq<char>)
    requires
        sep == '/' || sep == '\\',
        forall|i: int| 0 <= i < name.len() ==> #[trigger] name[i] != '/' && name[i] != '\\',
    ensures
        base_of(dir.push(sep) + name) == name,
        base_of(name) == name,
{
    let p = dir.push(sep) + name;
    let at = dir.len() as int + 1;
    assert forall|j: int| at <= j < p.len() implies !CharClass::PathSep.has(#[trigger] p[j]) by {
        assert(p[j] == name[j - at]);
    }
    assert(p[at - 1] == sep);
    text::lemma_after_last_is(p, CharClass::PathSep, at);
    assert(p.skip(at) =~= name);
    text::lemma_after_last_is(name, CharClass::PathSep, 0);
    assert(name.skip(0) =~= name);
}

/// A file below the root is known by what follows the root, however the path to it was written.
pub proof fn files_are_known_below_their_root(
    root: Seq<char>,
    sep: char,
    rel: Seq<char>,
    touched: Seq<char>,
)
    requires
        sep == '/' || sep == '\\',
        rel.len() == 0 || rel[0] != '/' && rel[0] != '\\',
    ensures
        relative(Some(root), touched, root.push(sep) + rel) == rel,
{
    let p = root.push(sep) + rel;
    assert(p.subrange(0, root.len() as int) =~= root);
    assert(p[root.len() as int] == sep);
    let t = p.skip(root.len() as int);
    assert(t[0] == sep);
    assert(t.drop_first() =~= rel);
    assert(text::trimmed_start(t, CharClass::PathSep) == text::trimmed_start(
        rel,
        CharClass::PathSep,
    ));
}

/// A file that lies outside the root keeps its path as it was written, with forward slashes:
/// also where it lies in a directory whose name only starts like the root.
pub proof fn files_outside_keep_their_path(root: Seq<char>, touched: Seq<char>, canonical: Seq<char>)
    requires
        root.len() != 0,
        root.last() != '/' && root.last() != '\\',
        !text::has_prefix(canonical, root) || canonical.len() > root.len() && canonical[root.len() as int]
            != '/' && canonical[root.len() as int] != '\\',
        !text::has_prefix(touched, root) || touched.len() > root.len() && touched[root.len() as int]
            != '/' && touched[root.len() as int] != '\\',
    ensures
        relative(Some(root), touched, canonical).len() == touched.len(),
        forall|i: int|
            0 <= i < touched.len() ==> (#[trigger] relative(Some(root), touched, canonical)[i])
                == if touched[i] == '\\' {
                '/'
            } else {
                touched[i]
            },
        relative(None, touched, canonical) == relative(Some(root), touched, canonical),
{
}

/// Where only the path as it was written lies below the root, that one counts.
pub proof fn written_paths_count_too(root: Seq<char>, sep: char, rel: Seq<char>, canonical: Seq<char>)
    requires
        sep == '/' || sep == '\\',
        rel.len() == 0 || rel[0] != '/' && rel[0] != '\\',
        !text::has_prefix(canonical, root),
    ensures
        relative(Some(root), root.push(sep) + rel, canonical) == rel,
{
    files_are_known_below_their_root(root, sep, rel, root.push(sep) + rel);
}

/// A root that ends with a separator has the same files below it.
pub proof fn roots_may_end_with_a_separator(
    root: Seq<char>,
    sep: char,
    rel: Seq<char>,
    touched: Seq<char>,
)
    requires
        sep == '/' || sep == '\\',
        rel.len() == 0 || rel[0] != '/' && rel[0] != '\\',
    ensures
        relative(Some(root.push(sep)), touched, root.push(sep) + rel) == rel,
        relative(Some(root), touched, root).len() == 0,
{
    let r = root.push(sep);
    let p = r + rel;
    assert(p.subrange(0, r.len() as int) =~= r);
    assert(p.skip(r.len() as int) =~= rel);
    assert(root.subrange(0, root.len() as int) =~= root);
    assert(root.skip(root.len() as int).len() == 0);
}

} // verus!
