//! Crunching a repository: its files, the symbols that they define, and its dependencies.
//!
//! Symbols are found by regular expressions, line by line: high recall, approximate,
//! definitions only. Dependencies come from manifests.

use vstd::prelude::*;

use crate::manifest;
use crate::model;
use crate::patterns;
use crate::patterns::Pattern;
use crate::sorted;
use crate::text;

verus! {

// ---------------------------------------------------------------------------
// Symbols
// ---------------------------------------------------------------------------

/// One symbol definition.
pub struct Symbol {
    pub name: String,
    pub kind: &'static str,
}

/// What a symbol says.
#[verifier::ext_equal]
pub struct SymbolV {
    pub name: Seq<char>,
    pub kind: Seq<char>,
}

impl View for Symbol {
    type V = SymbolV;

    open spec fn view(&self) -> SymbolV {
        SymbolV { name: self.name@, kind: self.kind@ }
    }
}

/// The views of a list of symbols.
pub open spec fn symbol_views(v: Seq<Symbol>) -> Seq<SymbolV> {
    v.map_values(|s: Symbol| s@)
}

/// The languages whose symbols are found.
#[derive(Clone, Copy, PartialEq, Eq, Structural)]
pub enum Lang {
    Rust,
    Python,
    Js,
    Go,
}

/// The language of a file extension.
pub open spec fn lang_of(ext: Seq<char>) -> Option<Lang> {
    if ext == "rs"@ {
        Some(Lang::Rust)
    } else if ext == "py"@ {
        Some(Lang::Python)
    } else if ext == "js"@ || ext == "ts"@ || ext == "jsx"@ || ext == "tsx"@ || ext == "mjs"@ {
        Some(Lang::Js)
    } else if ext == "go"@ {
        Some(Lang::Go)
    } else {
        None
    }
}

/// The rules of a language: the kind of symbol and its expression.
pub open spec fn rules_of(lang: Lang) -> Seq<(Seq<char>, Pattern)> {
    match lang {
        Lang::Rust => seq![
            ("fn"@, Pattern::RustFn),
            ("struct"@, Pattern::RustStruct),
            ("enum"@, Pattern::RustEnum),
            ("trait"@, Pattern::RustTrait),
        ],
        Lang::Python => seq![
            ("def"@, Pattern::PythonDef),
            ("class"@, Pattern::PythonClass),
        ],
        Lang::Js => seq![
            ("function"@, Pattern::JsFunction),
            ("class"@, Pattern::JsClass),
            ("const"@, Pattern::JsConst),
        ],
        Lang::Go => seq![
            ("func"@, Pattern::GoFunc),
            ("type"@, Pattern::GoType),
        ],
    }
}

/// The language of a file extension.
pub fn language(ext: &str) -> (r: Option<Lang>)
    ensures
        r == lang_of(ext@),
{
    if text::same_str(ext, "rs") {
        Some(Lang::Rust)
    } else if text::same_str(ext, "py") {
        Some(Lang::Python)
    } else if text::same_str(ext, "js") || text::same_str(ext, "ts") || text::same_str(ext, "jsx") || text::same_str(ext, "tsx") || text::same_str(ext, "mjs") {
        Some(Lang::Js)
    } else if text::same_str(ext, "go") {
        Some(Lang::Go)
    } else {
        None
    }
}

/// The views of a list of rules.
pub open spec fn rule_views(v: Seq<(&'static str, Pattern)>) -> Seq<(Seq<char>, Pattern)> {
    v.map_values(|r: (&'static str, Pattern)| (r.0@, r.1))
}

fn lang_rules(lang: Lang) -> (r: Vec<(&'static str, Pattern)>)
    ensures
        rule_views(r@) == rules_of(lang),
{
    let r: Vec<(&'static str, Pattern)> = match lang {
        Lang::Rust => vec![
            ("fn", Pattern::RustFn),
            ("struct", Pattern::RustStruct),
            ("enum", Pattern::RustEnum),
            ("trait", Pattern::RustTrait),
        ],
        Lang::Python => vec![
            ("def", Pattern::PythonDef),
            ("class", Pattern::PythonClass),
        ],
        Lang::Js => vec![
            ("function", Pattern::JsFunction),
            ("class", Pattern::JsClass),
            ("const", Pattern::JsConst),
        ],
        Lang::Go => vec![
            ("func", Pattern::GoFunc),
            ("type", Pattern::GoType),
        ],
    };
    assert(rule_views(r@) =~= rules_of(lang));
    r
}

/// The symbols in the groups that an expression captured.
pub open spec fn group_symbols(kind: Seq<char>, groups: Seq<Option<Seq<char>>>) -> Seq<SymbolV>
    decreases groups.len(),
{
    if groups.len() == 0 {
        Seq::empty()
    } else {
        match groups.last() {
            Some(name) => group_symbols(kind, groups.drop_last()).push(SymbolV { name, kind }),
            None => group_symbols(kind, groups.drop_last()),
        }
    }
}

/// The symbols that rules find in a text, rule by rule.
pub open spec fn rule_symbols(rules: Seq<(Seq<char>, Pattern)>, s: Seq<char>) -> Seq<SymbolV>
    decreases rules.len(),
{
    if rules.len() == 0 {
        Seq::empty()
    } else {
        rule_symbols(rules.drop_last(), s) + group_symbols(
            rules.last().0,
            patterns::regex_groups(rules.last().1.text(), s),
        )
    }
}

/// The most symbols that are taken from one file.
pub const MAX_SYMBOLS: usize = 200;

/// The longest file, in bytes, that is searched for symbols.
pub const MAX_FILE_BYTES: usize = 1_000_000;

/// The symbols of a source text: those that its language's rules find, up to the cap.
pub open spec fn symbols_of(lang: Lang, s: Seq<char>) -> Seq<SymbolV> {
    text::first_n(rule_symbols(rules_of(lang), s), MAX_SYMBOLS as int)
}

fn add_groups(kind: &'static str, groups: &Vec<Option<String>>, out: &mut Vec<Symbol>)
    requires
        old(out)@.len() <= MAX_SYMBOLS,
    ensures
        symbol_views(final(out)@) == text::first_n(
            symbol_views(old(out)@) + group_symbols(kind@, patterns::group_views(groups@)),
            MAX_SYMBOLS as int,
        ),
        final(out)@.len() <= MAX_SYMBOLS,
{
    let ghost was = symbol_views(out@);
    let ghost gs = patterns::group_views(groups@);
    let n: usize = groups.len();
    assert(gs.take(0) =~= Seq::empty());
    assert(was + Seq::empty() =~= was);
    assert(text::first_n(was, MAX_SYMBOLS as int) =~= was);
    for i in 0..n
        invariant
            n == groups@.len(),
            gs == patterns::group_views(groups@),
            out@.len() <= MAX_SYMBOLS,
            symbol_views(out@) == text::first_n(
                was + group_symbols(kind@, gs.take(i as int)),
                MAX_SYMBOLS as int,
            ),
    {
        assert(gs.take(i + 1).drop_last() =~= gs.take(i as int));
        assert(gs.take(i + 1).last() == model::opt(groups@[i as int]));
        let ghost all = was + group_symbols(kind@, gs.take(i as int));
        match &groups[i] {
            Some(name) => {
                let ghost s = SymbolV { name: name@, kind: kind@ };
                assert(was + group_symbols(kind@, gs.take(i + 1)) =~= all.push(s));
                if out.len() < MAX_SYMBOLS {
                    let ghost before = out@;
                    out.push(Symbol { name: name.clone(), kind });
                    assert(symbol_views(out@) =~= symbol_views(before).push(s));
                    assert(symbol_views(out@) =~= text::first_n(all.push(s), MAX_SYMBOLS as int));
                } else {
                    assert(text::first_n(all.push(s), MAX_SYMBOLS as int) =~= text::first_n(
                        all,
                        MAX_SYMBOLS as int,
                    ));
                }
            },
            None => {},
        }
    }
    assert(gs.take(n as int) =~= gs);
}

/// Finds the symbols of a source text.
pub fn find_symbols(lang: Lang, s: &str) -> (r: Vec<Symbol>)
    ensures
        symbol_views(r@) == symbols_of(lang, s@),
{
    let rules = lang_rules(lang);
    let ghost rs = rules_of(lang);
    let mut out: Vec<Symbol> = Vec::new();
    let n: usize = rules.len();
    assert(rs.take(0) =~= Seq::empty());
    assert(symbol_views(out@) =~= text::first_n(Seq::empty(), MAX_SYMBOLS as int));
    for i in 0..n
        invariant
            n == rules@.len() == rs.len(),
            rule_views(rules@) == rs,
            out@.len() <= MAX_SYMBOLS,
            symbol_views(out@) == text::first_n(
                rule_symbols(rs.take(i as int), s@),
                MAX_SYMBOLS as int,
            ),
    {
        assert(rs.take(i + 1).drop_last() =~= rs.take(i as int));
        let (kind, pattern) = rules[i];
        assert(rs[i as int] == (kind@, pattern));
        assert(rs.take(i + 1).last() == (kind@, pattern));
        let groups = patterns::first_groups(pattern, s);
        let ghost all = rule_symbols(rs.take(i as int), s@);
        let ghost more = group_symbols(kind@, patterns::group_views(groups@));
        add_groups(kind, &groups, &mut out);
        assert(text::first_n(text::first_n(all, MAX_SYMBOLS as int) + more, MAX_SYMBOLS as int)
            =~= text::first_n(all + more, MAX_SYMBOLS as int));
    }
    assert(rs.take(n as int) =~= rs);
    out
}

// ---------------------------------------------------------------------------
// Scanning
// ---------------------------------------------------------------------------

/// Directories that are not entered.
pub open spec fn skipped_dir(name: Seq<char>) -> bool {
    name == ".git"@ || name == "target"@ || name == "node_modules"@ || name == "dist"@ || name == "build"@ || name == ".venv"@ || name == "vendor"@
}

/// Whether a directory of this name is not entered.
pub fn is_skippable(name: &str) -> (r: bool)
    ensures
        r == skipped_dir(name@),
{
    text::same_str(name, ".git") || text::same_str(name, "target") || text::same_str(name, "node_modules") || text::same_str(name, "dist") || text::same_str(name, "build") || text::same_str(name, ".venv") || text::same_str(name, "vendor")
}

/// The result of crunching a repository.
pub struct RepoScan {
    pub repo_label: String,
    /// Relative path and symbols of each file that defines any.
    pub files: Vec<(String, Vec<Symbol>)>,
    /// The relative paths of all files.
    pub all_files: Vec<String>,
    /// Dependency names.
    pub frameworks: Vec<String>,
}

/// What a scan says.
#[verifier::ext_equal]
pub struct RepoScanV {
    pub repo_label: Seq<char>,
    pub files: Seq<(Seq<char>, Seq<SymbolV>)>,
    pub all_files: Seq<Seq<char>>,
    pub frameworks: Seq<Seq<char>>,
}

/// The views of a list of files.
pub open spec fn file_views(v: Seq<(String, Vec<Symbol>)>) -> Seq<(Seq<char>, Seq<SymbolV>)> {
    v.map_values(|f: (String, Vec<Symbol>)| (f.0@, symbol_views(f.1@)))
}

impl View for RepoScan {
    type V = RepoScanV;

    open spec fn view(&self) -> RepoScanV {
        RepoScanV {
            repo_label: self.repo_label@,
            files: file_views(self.files@),
            all_files: text::string_views(self.all_files@),
            frameworks: text::string_views(self.frameworks@),
        }
    }
}

/// A string slice that may be missing, viewed.
pub open spec fn slice_opt(s: Option<&str>) -> Option<Seq<char>> {
    match s {
        Some(x) => Some(x@),
        None => None,
    }
}

/// The symbols of a visited file: none where its language is not known, it could not be read,
/// or it is too long.
pub open spec fn visited_symbols(ext: Option<Seq<char>>, content: Option<Seq<char>>) -> Seq<SymbolV> {
    match (ext, content) {
        (Some(e), Some(s)) => match lang_of(e) {
            Some(lang) => if text::utf8_len(s) > MAX_FILE_BYTES {
                Seq::empty()
            } else {
                symbols_of(lang, s)
            },
            None => Seq::empty(),
        },
        _ => Seq::empty(),
    }
}

/// The dependencies that a visited file names: none unless it is a manifest that could be read.
pub open spec fn visited_dependencies(file_name: Option<Seq<char>>, content: Option<Seq<char>>) -> Seq<
    Seq<char>,
> {
    match (file_name, content) {
        (Some(f), Some(s)) => if manifest::is_manifest(f) {
            manifest::dependencies(f, s)
        } else {
            Seq::empty()
        },
        _ => Seq::empty(),
    }
}

/// The scan after one more file was visited.
pub open spec fn with_file(
    scan: RepoScanV,
    rel: Seq<char>,
    file_name: Option<Seq<char>>,
    ext: Option<Seq<char>>,
    content: Option<Seq<char>>,
) -> RepoScanV {
    let symbols = visited_symbols(ext, content);
    RepoScanV {
        files: if symbols.len() == 0 {
            scan.files
        } else {
            scan.files.push((rel, symbols))
        },
        all_files: scan.all_files.push(rel),
        frameworks: scan.frameworks + visited_dependencies(file_name, content),
        ..scan
    }
}

impl RepoScan {
    /// A scan that has seen nothing yet.
    pub fn new(repo_label: &str) -> (r: RepoScan)
        ensures
            r@ == (RepoScanV {
                repo_label: repo_label@,
                files: Seq::empty(),
                all_files: Seq::empty(),
                frameworks: Seq::empty(),
            }),
    {
        let r = RepoScan {
            repo_label: model::owned(repo_label),
            files: Vec::new(),
            all_files: Vec::new(),
            frameworks: Vec::new(),
        };
        assert(r@.files =~= Seq::empty());
        assert(r@.all_files =~= Seq::empty());
        assert(r@.frameworks =~= Seq::empty());
        r
    }

    /// Visits a file: its relative path, its name and extension where they are text, and its
    /// content where it could be read as text.
    pub fn visit(
        &mut self,
        rel: &str,
        file_name: Option<&str>,
        ext: Option<&str>,
        content: Option<&str>,
    )
        ensures
            final(self)@ == with_file(
                old(self)@,
                rel@,
                slice_opt(file_name),
                slice_opt(ext),
                slice_opt(content),
            ),
    {
        let ghost was = self@;
        self.all_files.push(model::owned(rel));
        assert(text::string_views(self.all_files@) =~= was.all_files.push(rel@));
        let ghost deps = visited_dependencies(slice_opt(file_name), slice_opt(content));
        assert(was.frameworks + Seq::empty() =~= was.frameworks);
        match (file_name, content) {
            (Some(f), Some(s)) => {
                if manifest::is_manifest_name(f) {
                    let mut found = manifest::parse_manifest(f, s);
                    let ghost added = found@;
                    let ghost before = self.frameworks@;
                    self.frameworks.append(&mut found);
                    assert(text::string_views(self.frameworks@) =~= text::string_views(before)
                        + text::string_views(added));
                }
            },
            _ => {},
        }
        assert(text::string_views(self.frameworks@) == was.frameworks + deps);
        match (ext, content) {
            (Some(e), Some(s)) => match language(e) {
                Some(lang) => {
                    if text::byte_len(&text::chars_of(s)) <= MAX_FILE_BYTES {
                        let symbols = find_symbols(lang, s);
                        if symbols.len() != 0 {
                            let ghost before = self.files@;
                            self.files.push((model::owned(rel), symbols));
                            assert(file_views(self.files@) =~= file_views(before).push(
                                (rel@, symbols_of(lang, s@)),
                            ));
                        }
                    }
                },
                None => {},
            },
            _ => {},
        }
    }

    /// Ends the scan: lists each dependency once, in ascending order.
    pub fn finish(self) -> (r: RepoScan)
        ensures
            r@ == (RepoScanV { frameworks: r@.frameworks, ..self@ }),
            sorted::sorted_once(r@.frameworks, self@.frameworks),
    {
        let sorted = sorted::sort_once(&self.frameworks);
        RepoScan { frameworks: sorted, ..self }
    }
}

/// Whether a file's content is needed: it is a manifest, or its language is known.
pub fn needs_content(file_name: Option<&str>, ext: Option<&str>) -> (r: bool)
    ensures
        !r ==> forall|content: Option<Seq<char>>|
            visited_symbols(slice_opt(ext), content) == Seq::<SymbolV>::empty()
                && visited_dependencies(slice_opt(file_name), content) == Seq::<Seq<char>>::empty(),
        r == ((slice_opt(file_name) matches Some(f) && manifest::is_manifest(f)) || (slice_opt(
            ext,
        ) matches Some(e) && lang_of(e) is Some)),
{
    let is_manifest = match file_name {
        Some(f) => manifest::is_manifest_name(f),
        None => false,
    };
    let known = match ext {
        Some(e) => language(e).is_some(),
        None => false,
    };
    is_manifest || known
}

// ---------------------------------------------------------------------------
// Laws
// ---------------------------------------------------------------------------

/// No file brings in more symbols than the cap.
pub proof fn symbols_are_capped(lang: Lang, s: Seq<char>)
    ensures
        symbols_of(lang, s).len() <= MAX_SYMBOLS,
{
}

/// Which extensions belong to which language.
pub proof fn extensions_tell_the_language(ext: Seq<char>)
    ensures
        lang_of(ext) == Some(Lang::Rust) <==> ext == "rs"@,
        lang_of(ext) == Some(Lang::Python) <==> ext == "py"@,
        lang_of(ext) == Some(Lang::Js) <==> ext == "js"@ || ext == "ts"@ || ext == "jsx"@ || ext
            == "tsx"@ || ext == "mjs"@,
        lang_of(ext) == Some(Lang::Go) <==> ext == "go"@,
{
    reveal_strlit("rs");
    reveal_strlit("py");
    reveal_strlit("js");
    reveal_strlit("ts");
    reveal_strlit("jsx");
    reveal_strlit("tsx");
    reveal_strlit("mjs");
    reveal_strlit("go");
    assert("rs"@[0] == 'r' && "py"@[0] == 'p' && "js"@[0] == 'j' && "ts"@[0] == 't' && "jsx"@[0]
        == 'j' && "tsx"@[0] == 't' && "mjs"@[0] == 'm' && "go"@[0] == 'g');
}

/// Everything that an expression captured is a symbol, in the order of the matches.
pub proof fn captures_are_symbols(kind: Seq<char>, groups: Seq<Option<Seq<char>>>)
    ensures
        group_symbols(kind, groups) == groups.filter_map(
            |g: Option<Seq<char>>|
                match g {
                    Some(name) => Some(SymbolV { name, kind }),
                    None => None,
                },
        ),
        forall|k: int, name: Seq<char>|
            0 <= k < groups.len() && #[trigger] groups[k] == Some(name) ==> #[trigger] group_symbols(
                kind,
                groups,
            ).contains(SymbolV { name, kind }),
    decreases groups.len(),
{
    if groups.len() != 0 {
        let init = groups.drop_last();
        captures_are_symbols(kind, init);
        let before = group_symbols(kind, init);
        let all = group_symbols(kind, groups);
        assert forall|k: int, name: Seq<char>|
            0 <= k < groups.len() && #[trigger] groups[k] == Some(
                name,
            ) implies #[trigger] all.contains(SymbolV { name, kind }) by {
            let sym = SymbolV { name, kind };
            if k < init.len() {
                assert(init[k] == Some(name));
                assert(before.contains(sym));
                let i = choose|i: int| 0 <= i < before.len() && before[i] == sym;
                assert(all[i] == sym);
            } else {
                assert(all[before.len() as int] == sym);
            }
        }
    }
}

proof fn lemma_rule_symbol(
    rules: Seq<(Seq<char>, Pattern)>,
    s: Seq<char>,
    r: int,
    k: int,
    name: Seq<char>,
)
    requires
        0 <= r < rules.len(),
        0 <= k < patterns::regex_groups(rules[r].1.text(), s).len(),
        patterns::regex_groups(rules[r].1.text(), s)[k] == Some(name),
    ensures
        rule_symbols(rules, s).contains(SymbolV { name, kind: rules[r].0 }),
    decreases rules.len(),
{
    let init = rules.drop_last();
    let before = rule_symbols(init, s);
    let last = rules.last();
    let more = group_symbols(last.0, patterns::regex_groups(last.1.text(), s));
    let sym = SymbolV { name, kind: rules[r].0 };
    if r < init.len() {
        assert(init[r] == rules[r]);
        lemma_rule_symbol(init, s, r, k, name);
        let i = choose|i: int| 0 <= i < before.len() && before[i] == sym;
        assert((before + more)[i] == sym);
    } else {
        captures_are_symbols(last.0, patterns::regex_groups(last.1.text(), s));
        assert(more.contains(sym));
        let i = choose|i: int| 0 <= i < more.len() && more[i] == sym;
        assert((before + more)[before.len() + i] == sym);
    }
}

/// Every definition that the expressions of a language find is a symbol, of the kind that the
/// expression stands for, unless two hundred others come before it.
pub proof fn definitions_are_symbols(
    lang: Lang,
    kind: Seq<char>,
    p: Pattern,
    s: Seq<char>,
    k: int,
    name: Seq<char>,
)
    requires
        (lang == Lang::Rust && kind == "fn"@ && p == Pattern::RustFn)
            || (lang == Lang::Rust && kind == "struct"@ && p == Pattern::RustStruct)
            || (lang == Lang::Rust && kind == "enum"@ && p == Pattern::RustEnum)
            || (lang == Lang::Rust && kind == "trait"@ && p == Pattern::RustTrait)
            || (lang == Lang::Python && kind == "def"@ && p == Pattern::PythonDef)
            || (lang == Lang::Python && kind == "class"@ && p == Pattern::PythonClass)
            || (lang == Lang::Js && kind == "function"@ && p == Pattern::JsFunction)
            || (lang == Lang::Js && kind == "class"@ && p == Pattern::JsClass)
            || (lang == Lang::Js && kind == "const"@ && p == Pattern::JsConst)
            || (lang == Lang::Go && kind == "func"@ && p == Pattern::GoFunc)
            || (lang == Lang::Go && kind == "type"@ && p == Pattern::GoType),
        0 <= k < patterns::regex_groups(p.text(), s).len(),
        patterns::regex_groups(p.text(), s)[k] == Some(name),
        symbols_of(lang, s).len() < 200,
    ensures
        symbols_of(lang, s).contains(SymbolV { name, kind }),
{
    let rules = rules_of(lang);
    let r: int = if rules[0] == (kind, p) {
        0
    } else if rules[1] == (kind, p) {
        1
    } else if rules[2] == (kind, p) {
        2
    } else {
        3
    };
    lemma_rule_symbol(rules, s, r, k, name);
    let all = rule_symbols(rules, s);
    assert(text::first_n(all, 200) == all);
}

proof fn lemma_rules_sound(rules: Seq<(Seq<char>, Pattern)>, s: Seq<char>, i: int)
    requires
        0 <= i < rule_symbols(rules, s).len(),
    ensures
        exists|r: int, k: int|
            0 <= r < rules.len() && (#[trigger] rules[r]).0 == rule_symbols(rules, s)[i].kind && 0 <= k
                < patterns::regex_groups(rules[r].1.text(), s).len() && #[trigger] patterns::regex_groups(
                rules[r].1.text(),
                s,
            )[k] == Some(rule_symbols(rules, s)[i].name),
    decreases rules.len(),
{
    let init = rules.drop_last();
    let before = rule_symbols(init, s);
    let last = rules[rules.len() - 1];
    let groups = patterns::regex_groups(last.1.text(), s);
    let all = rule_symbols(rules, s);
    if i < before.len() {
        lemma_rules_sound(init, s, i);
        let (r, k) = choose|r: int, k: int|
            0 <= r < init.len() && (#[trigger] init[r]).0 == before[i].kind && 0 <= k
                < patterns::regex_groups(init[r].1.text(), s).len() && #[trigger] patterns::regex_groups(
                init[r].1.text(),
                s,
            )[k] == Some(before[i].name);
        assert(rules[r] == init[r]);
        assert(patterns::regex_groups(rules[r].1.text(), s)[k] == Some(all[i].name));
    } else {
        let j = i - before.len();
        lemma_groups_sound(last.0, groups, j);
        let k = choose|k: int|
            0 <= k < groups.len() && #[trigger] groups[k] == Some(group_symbols(last.0, groups)[j].name);
        assert(all[i] == group_symbols(last.0, groups)[j]);
        assert(rules[rules.len() - 1].0 == all[i].kind);
        assert(patterns::regex_groups(rules[rules.len() - 1].1.text(), s)[k] == Some(all[i].name));
    }
}

proof fn lemma_groups_sound(kind: Seq<char>, groups: Seq<Option<Seq<char>>>, i: int)
    requires
        0 <= i < group_symbols(kind, groups).len(),
    ensures
        group_symbols(kind, groups)[i].kind == kind,
        exists|k: int|
            0 <= k < groups.len() && #[trigger] groups[k] == Some(group_symbols(kind, groups)[i].name),
    decreases groups.len(),
{
    let init = groups.drop_last();
    let before = group_symbols(kind, init);
    if i < before.len() {
        lemma_groups_sound(kind, init, i);
        let k = choose|k: int| 0 <= k < init.len() && #[trigger] init[k] == Some(before[i].name);
        assert(groups[k] == init[k]);
    } else {
        assert(groups[groups.len() - 1] == Some(group_symbols(kind, groups)[i].name));
    }
}

/// No symbol is made up: each was captured by an expression of the language that stands for its
/// kind.
pub proof fn symbols_are_definitions(lang: Lang, s: Seq<char>, i: int)
    requires
        0 <= i < symbols_of(lang, s).len(),
    ensures
        exists|p: Pattern, k: int|
            0 <= k < patterns::regex_groups(p.text(), s).len() && #[trigger] patterns::regex_groups(
                p.text(),
                s,
            )[k] == Some(symbols_of(lang, s)[i].name) && ({
                let kind = symbols_of(lang, s)[i].kind;
                (lang == Lang::Rust && kind == "fn"@ && p == Pattern::RustFn)
                    || (lang == Lang::Rust && kind == "struct"@ && p == Pattern::RustStruct)
                    || (lang == Lang::Rust && kind == "enum"@ && p == Pattern::RustEnum)
                    || (lang == Lang::Rust && kind == "trait"@ && p == Pattern::RustTrait)
                    || (lang == Lang::Python && kind == "def"@ && p == Pattern::PythonDef)
                    || (lang == Lang::Python && kind == "class"@ && p == Pattern::PythonClass)
                    || (lang == Lang::Js && kind == "function"@ && p == Pattern::JsFunction)
                    || (lang == Lang::Js && kind == "class"@ && p == Pattern::JsClass)
                    || (lang == Lang::Js && kind == "const"@ && p == Pattern::JsConst)
                    || (lang == Lang::Go && kind == "func"@ && p == Pattern::GoFunc)
                    || (lang == Lang::Go && kind == "type"@ && p == Pattern::GoType)
            }),
{
    let rules = rules_of(lang);
    let all = rule_symbols(rules, s);
    assert(symbols_of(lang, s)[i] == all[i]);
    lemma_rules_sound(rules, s, i);
    let (r, k) = choose|r: int, k: int|
        0 <= r < rules.len() && (#[trigger] rules[r]).0 == all[i].kind && 0 <= k
            < patterns::regex_groups(rules[r].1.text(), s).len() && #[trigger] patterns::regex_groups(
            rules[r].1.text(),
            s,
        )[k] == Some(all[i].name);
    let p = rules[r].1;
    assert(patterns::regex_groups(p.text(), s)[k] == Some(all[i].name));
    assert(r == 0 || r == 1 || r == 2 || r == 3);
}

/// Which directories are not entered.
pub proof fn generated_directories_are_skipped(name: Seq<char>)
    ensures
        skipped_dir(name) <==> seq![
            ".git"@,
            "target"@,
            "node_modules"@,
            "dist"@,
            "build"@,
            ".venv"@,
            "vendor"@,
        ].contains(name),
{
    let all = seq![
        ".git"@,
        "target"@,
        "node_modules"@,
        "dist"@,
        "build"@,
        ".venv"@,
        "vendor"@,
    ];
    assert(all[0] == ".git"@ && all[1] == "target"@ && all[2] == "node_modules"@ && all[3]
        == "dist"@ && all[4] == "build"@ && all[5] == ".venv"@ && all[6] == "vendor"@);
}

/// Every file that is visited is listed; it is listed with its symbols where it has any, and
/// what it depends on is added, where it is a manifest. What was found before stays.
pub proof fn visits_are_kept(
    scan: RepoScanV,
    rel: Seq<char>,
    file_name: Option<Seq<char>>,
    ext: Option<Seq<char>>,
    content: Option<Seq<char>>,
)
    ensures
        ({
            let after = with_file(scan, rel, file_name, ext, content);
            &&& after.repo_label == scan.repo_label
            &&& after.all_files == scan.all_files + seq![rel]
            &&& file_name matches Some(f) ==> (content matches Some(s) ==> after.frameworks
                == scan.frameworks + manifest::dependencies(f, s))
            &&& file_name is None || content is None ==> after.frameworks == scan.frameworks
            &&& ext matches Some(e) ==> (content matches Some(s) ==> (lang_of(e) matches Some(lang)
                ==> (vstd::utf8::encode_utf8(s).len() <= 1_000_000 && symbols_of(lang, s).len()
                != 0 ==> after.files == scan.files + seq![(rel, symbols_of(lang, s))])))
            &&& content matches Some(s) ==> (vstd::utf8::encode_utf8(s).len() > 1_000_000
                ==> after.files == scan.files)
            &&& ext is None || content is None ==> after.files == scan.files
            &&& ext matches Some(e) ==> (lang_of(e) is None ==> after.files == scan.files)
        }),
{
    assert(scan.all_files.push(rel) =~= scan.all_files + seq![rel]);
    let symbols = visited_symbols(ext, content);
    assert(scan.files.push((rel, symbols)) =~= scan.files + seq![(rel, symbols)]);
    assert(scan.frameworks + Seq::<Seq<char>>::empty() =~= scan.frameworks);
    if let (Some(f), Some(s)) = (file_name, content) {
        manifest::manifests_are_known_by_name(f, s);
        if !manifest::is_manifest(f) {
            assert(manifest::dependencies(f, s) =~= Seq::<Seq<char>>::empty());
        }
    }
}

/// The first two hundred symbols of a file count.
pub proof fn the_first_two_hundred_symbols_count(lang: Lang, s: Seq<char>)
    ensures
        rule_symbols(rules_of(lang), s).len() <= 200 ==> symbols_of(lang, s) == rule_symbols(
            rules_of(lang),
            s,
        ),
        rule_symbols(rules_of(lang), s).len() > 200 ==> symbols_of(lang, s) == rule_symbols(
            rules_of(lang),
            s,
        ).subrange(0, 200),
{
    let all = rule_symbols(rules_of(lang), s);
    if all.len() > 200 {
        assert(all.take(200) =~= all.subrange(0, 200));
    } else if all.len() == 200 {
        assert(all.take(200) =~= all);
    }
}

/// What a scan says: all that it holds.
pub proof fn repo_scan_views_say_all(x: RepoScan)
    ensures
        x@.repo_label == x.repo_label@,
        x@.files == file_views(x.files@),
        x@.all_files == text::string_views(x.all_files@),
        x@.frameworks == text::string_views(x.frameworks@),
{
}

/// What a symbol says: all that it holds.
pub proof fn symbol_views_say_all(x: Symbol)
    ensures
        x@.name == x.name@,
        x@.kind == x.kind@,
{
}

/// Viewing a list keeps all its items, in their order.
pub proof fn symbol_views_keep_all(v: Seq<Symbol>, i: int)
    requires
        0 <= i < v.len(),
    ensures
        symbol_views(v).len() == v.len(),
        symbol_views(v)[i] == v[i]@,
{
}

} // verus!
