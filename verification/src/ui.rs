//! Which asset of the canvas answers a request.

use vstd::prelude::*;

use crate::model;
use crate::text;
use crate::text::CharClass;

verus! {

/// The asset that a path asks for: the path without its leading slashes, and the shell where
/// nothing is left.
pub open spec fn requested(path: Seq<char>) -> Seq<char> {
    let p = text::trimmed_start(path, CharClass::Is('/'));
    if p.len() == 0 {
        "index.html"@
    } else {
        p
    }
}

/// The asset that a path asks for.
pub fn asset_path(path: &str) -> (r: String)
    ensures
        r@ == requested(path@),
{
    let p = text::trim_start(&text::chars_of(path), CharClass::Is('/'));
    if p.len() == 0 {
        model::owned("index.html")
    } else {
        text::string_of(&p)
    }
}

/// What follows the last character of a class; all of the text where there is none.
pub open spec fn tail_of(s: Seq<char>, class: CharClass) -> Seq<char> {
    s.skip(text::after_last(s, class))
}

fn tail(s: &[char], class: CharClass) -> (r: Vec<char>)
    ensures
        r@ == tail_of(s@, class),
{
    let at: usize = text::find_after_last(s, class);
    let out = text::part(s, at, s.len());
    assert(out@ =~= s@.skip(at as int));
    out
}

/// The content type of an extension.
pub open spec fn mime_of(path: Seq<char>) -> Seq<char> {
    let ext = tail_of(path, CharClass::Is('.'));
    if ext == "html"@ {
        "text/html; charset=utf-8"@
    } else if ext == "js"@ {
        "text/javascript; charset=utf-8"@
    } else if ext == "css"@ {
        "text/css; charset=utf-8"@
    } else if ext == "json"@ {
        "application/json"@
    } else if ext == "svg"@ {
        "image/svg+xml"@
    } else if ext == "png"@ {
        "image/png"@
    } else if ext == "ico"@ {
        "image/x-icon"@
    } else if ext == "woff2"@ {
        "font/woff2"@
    } else {
        "application/octet-stream"@
    }
}

/// The content type of an asset.
pub fn mime_for(path: &str) -> (r: &'static str)
    ensures
        r@ == mime_of(path@),
{
    let ext = text::string_of(&tail(&text::chars_of(path), CharClass::Is('.')));
    let e = ext.as_str();
    if text::same_str(e, "html") {
        "text/html; charset=utf-8"
    } else if text::same_str(e, "js") {
        "text/javascript; charset=utf-8"
    } else if text::same_str(e, "css") {
        "text/css; charset=utf-8"
    } else if text::same_str(e, "json") {
        "application/json"
    } else if text::same_str(e, "svg") {
        "image/svg+xml"
    } else if text::same_str(e, "png") {
        "image/png"
    } else if text::same_str(e, "ico") {
        "image/x-icon"
    } else if text::same_str(e, "woff2") {
        "font/woff2"
    } else {
        "application/octet-stream"
    }
}

/// Whether a path names a file: there is a dot in its last segment.
pub open spec fn names_file(path: Seq<char>) -> bool {
    text::has_class(tail_of(path, CharClass::Is('/')), CharClass::Is('.'))
}

/// What a request is answered with.
pub enum Reply {
    /// The asset itself, with its content type.
    Asset(&'static str),
    /// The shell, which routes the path itself.
    Shell,
    /// Nothing is found.
    NotFound,
}

/// What a request for an asset is answered with: the asset where it is there, nothing where a
/// file is asked for, and else the shell where it is there.
pub fn reply(path: &str, found: bool, shell: bool) -> (r: Reply)
    ensures
        match r {
            Reply::Asset(mime) => found && mime@ == mime_of(path@),
            Reply::Shell => !found && !names_file(path@) && shell,
            Reply::NotFound => !found && (names_file(path@) || !shell),
        },
{
    if found {
        return Reply::Asset(mime_for(path));
    }
    let last = tail(&text::chars_of(path), CharClass::Is('/'));
    if text::contains_class(&last, CharClass::Is('.')) || !shell {
        Reply::NotFound
    } else {
        Reply::Shell
    }
}

// ---------------------------------------------------------------------------
// Laws
// ---------------------------------------------------------------------------

/// The asset that a path asks for is what follows its leading slashes.
pub proof fn leading_slashes_are_dropped(p: Seq<char>, slashes: nat)
    requires
        p.len() == 0 || p[0] != '/',
    ensures
        p.len() != 0 ==> requested(Seq::new(slashes, |i: int| '/') + p) == p,
        p.len() == 0 ==> requested(Seq::new(slashes, |i: int| '/') + p) == "index.html"@,
{
    lemma_slashes(p, slashes);
}

proof fn lemma_slashes(p: Seq<char>, slashes: nat)
    requires
        p.len() == 0 || p[0] != '/',
    ensures
        text::trimmed_start(Seq::new(slashes, |i: int| '/') + p, CharClass::Is('/')) == p,
    decreases slashes,
{
    let s = Seq::new(slashes, |i: int| '/') + p;
    if slashes == 0 {
        assert(s =~= p);
    } else {
        assert(s.drop_first() =~= Seq::new((slashes - 1) as nat, |i: int| '/') + p);
        assert(s[0] == '/');
        lemma_slashes(p, (slashes - 1) as nat);
    }
}

proof fn lemma_tail(front: Seq<char>, c: char, last: Seq<char>)
    requires
        forall|i: int| 0 <= i < last.len() ==> #[trigger] last[i] != c,
    ensures
        tail_of(front.push(c) + last, CharClass::Is(c)) == last,
        tail_of(last, CharClass::Is(c)) == last,
{
    let s = front.push(c) + last;
    let at = front.len() as int + 1;
    assert forall|j: int| at <= j < s.len() implies !CharClass::Is(c).has(#[trigger] s[j]) by {
        assert(s[j] == last[j - at]);
    }
    assert(s[at - 1] == c);
    text::lemma_after_last_is(s, CharClass::Is(c), at);
    assert(s.skip(at) =~= last);
    text::lemma_after_last_is(last, CharClass::Is(c), 0);
    assert(last.skip(0) =~= last);
}

/// An asset is sent as what its extension says; as plain bytes where that is not known.
pub proof fn extensions_tell_the_type(stem: Seq<char>, ext: Seq<char>)
    requires
        forall|i: int| 0 <= i < ext.len() ==> #[trigger] ext[i] != '.',
    ensures
        ext == "html"@ ==> mime_of(stem.push('.') + ext) == "text/html; charset=utf-8"@,
        ext == "js"@ ==> mime_of(stem.push('.') + ext) == "text/javascript; charset=utf-8"@,
        ext == "css"@ ==> mime_of(stem.push('.') + ext) == "text/css; charset=utf-8"@,
        ext == "json"@ ==> mime_of(stem.push('.') + ext) == "application/json"@,
        ext == "svg"@ ==> mime_of(stem.push('.') + ext) == "image/svg+xml"@,
        ext == "png"@ ==> mime_of(stem.push('.') + ext) == "image/png"@,
        ext == "ico"@ ==> mime_of(stem.push('.') + ext) == "image/x-icon"@,
        ext == "woff2"@ ==> mime_of(stem.push('.') + ext) == "font/woff2"@,
        ext != "html"@ && ext != "js"@ && ext != "css"@ && ext != "json"@ && ext != "svg"@ && ext != "png"@ && ext != "ico"@ && ext != "woff2"@ ==> mime_of(
            stem.push('.') + ext,
        ) == "application/octet-stream"@,
{
    lemma_tail(stem, '.', ext);
    reveal_strlit("html");
    reveal_strlit("js");
    reveal_strlit("css");
    reveal_strlit("json");
    reveal_strlit("svg");
    reveal_strlit("png");
    reveal_strlit("ico");
    reveal_strlit("woff2");
    assert("html"@.len() == 4 && "js"@.len() == 2 && "css"@.len() == 3 && "json"@.len() == 4);
    assert("svg"@.len() == 3 && "png"@.len() == 3 && "ico"@.len() == 3 && "woff2"@.len() == 5);
    assert("html"@[0] == 'h' && "json"@[0] == 'j' && "css"@[0] == 'c' && "svg"@[0] == 's');
    assert("png"@[0] == 'p' && "ico"@[0] == 'i');
}

/// A path names a file where there is a dot behind its last slash.
pub proof fn files_have_a_dot(dir: Seq<char>, last: Seq<char>)
    requires
        forall|i: int| 0 <= i < last.len() ==> #[trigger] last[i] != '/',
    ensures
        names_file(dir.push('/') + last) <==> last.contains('.'),
        names_file(last) <==> last.contains('.'),
{
    lemma_tail(dir, '/', last);
    if last.contains('.') {
        let i = choose|i: int| 0 <= i < last.len() && last[i] == '.';
        assert(CharClass::Is('.').has(last[i]));
    }
}

} // verus!
