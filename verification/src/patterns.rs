//! The regular expressions that find the definitions of symbols.

use vstd::prelude::*;

use regex::Regex;

verus! {

/// A regular expression; its first group is the name of the symbol.
#[derive(Clone, Copy, PartialEq, Eq, Structural)]
pub enum Pattern {
    RustFn,
    RustStruct,
    RustEnum,
    RustTrait,
    PythonDef,
    PythonClass,
    JsFunction,
    JsClass,
    JsConst,
    GoFunc,
    GoType,
}

impl Pattern {
    /// The source of the expression.
    pub open spec fn text(self) -> Seq<char> {
        match self {
            Pattern::RustFn => r"(?m)^\s*(?:pub(?:\([^)]*\))?\s+)?(?:async\s+)?fn\s+([A-Za-z_][A-Za-z0-9_]*)"@,
            Pattern::RustStruct => r"(?m)^\s*(?:pub(?:\([^)]*\))?\s+)?struct\s+([A-Za-z_][A-Za-z0-9_]*)"@,
            Pattern::RustEnum => r"(?m)^\s*(?:pub(?:\([^)]*\))?\s+)?enum\s+([A-Za-z_][A-Za-z0-9_]*)"@,
            Pattern::RustTrait => r"(?m)^\s*(?:pub(?:\([^)]*\))?\s+)?trait\s+([A-Za-z_][A-Za-z0-9_]*)"@,
            Pattern::PythonDef => r"(?m)^\s*def\s+([A-Za-z_][A-Za-z0-9_]*)"@,
            Pattern::PythonClass => r"(?m)^\s*class\s+([A-Za-z_][A-Za-z0-9_]*)"@,
            Pattern::JsFunction => r"(?m)\bfunction\s+([A-Za-z_$][A-Za-z0-9_$]*)"@,
            Pattern::JsClass => r"(?m)\bclass\s+([A-Za-z_$][A-Za-z0-9_$]*)"@,
            Pattern::JsConst => r"(?m)^\s*(?:export\s+)?const\s+([A-Za-z_$][A-Za-z0-9_$]*)\s*="@,
            Pattern::GoFunc => r"(?m)^\s*func\s+(?:\([^)]*\)\s*)?([A-Za-z_][A-Za-z0-9_]*)"@,
            Pattern::GoType => r"(?m)^\s*type\s+([A-Za-z_][A-Za-z0-9_]*)"@,
        }
    }

    /// The source of the expression.
    pub fn source(self) -> (r: &'static str)
        ensures
            r@ == self.text(),
    {
        match self {
            Pattern::RustFn => r"(?m)^\s*(?:pub(?:\([^)]*\))?\s+)?(?:async\s+)?fn\s+([A-Za-z_][A-Za-z0-9_]*)",
            Pattern::RustStruct => r"(?m)^\s*(?:pub(?:\([^)]*\))?\s+)?struct\s+([A-Za-z_][A-Za-z0-9_]*)",
            Pattern::RustEnum => r"(?m)^\s*(?:pub(?:\([^)]*\))?\s+)?enum\s+([A-Za-z_][A-Za-z0-9_]*)",
            Pattern::RustTrait => r"(?m)^\s*(?:pub(?:\([^)]*\))?\s+)?trait\s+([A-Za-z_][A-Za-z0-9_]*)",
            Pattern::PythonDef => r"(?m)^\s*def\s+([A-Za-z_][A-Za-z0-9_]*)",
            Pattern::PythonClass => r"(?m)^\s*class\s+([A-Za-z_][A-Za-z0-9_]*)",
            Pattern::JsFunction => r"(?m)\bfunction\s+([A-Za-z_$][A-Za-z0-9_$]*)",
            Pattern::JsClass => r"(?m)\bclass\s+([A-Za-z_$][A-Za-z0-9_$]*)",
            Pattern::JsConst => r"(?m)^\s*(?:export\s+)?const\s+([A-Za-z_$][A-Za-z0-9_$]*)\s*=",
            Pattern::GoFunc => r"(?m)^\s*func\s+(?:\([^)]*\)\s*)?([A-Za-z_][A-Za-z0-9_]*)",
            Pattern::GoType => r"(?m)^\s*type\s+([A-Za-z_][A-Za-z0-9_]*)",
        }
    }
}

/// For the source of an expression and a text: the first group of each match that
/// `Regex::captures_iter` walks over.
pub uninterp spec fn regex_groups(pattern: Seq<char>, text: Seq<char>) -> Seq<Option<Seq<char>>>;

/// The views of optional strings.
pub open spec fn group_views(v: Seq<Option<String>>) -> Seq<Option<Seq<char>>> {
    v.map_values(|g: Option<String>| crate::model::opt(g))
}

/// `Regex::captures_iter`, with `Captures::get` for the first group: the group's text in each
/// match, in order, is a function of the expression's source and the text.
#[verifier::external_body]
pub(crate) fn first_groups(pattern: Pattern, text: &str) -> (r: Vec<Option<String>>)
    ensures
        group_views(r@) == regex_groups(pattern.text(), text@),
{
    let re = Regex::new(pattern.source()).unwrap();
    re.captures_iter(text).map(|c| c.get(1).map(|m| m.as_str().to_string())).collect()
}

// ---------------------------------------------------------------------------
// Laws
// ---------------------------------------------------------------------------

/// The expressions that find definitions, as they are handed to the search.
pub proof fn expressions_are_these()
    ensures
        Pattern::RustFn.text() == r"(?m)^\s*(?:pub(?:\([^)]*\))?\s+)?(?:async\s+)?fn\s+([A-Za-z_][A-Za-z0-9_]*)"@,
        Pattern::RustStruct.text() == r"(?m)^\s*(?:pub(?:\([^)]*\))?\s+)?struct\s+([A-Za-z_][A-Za-z0-9_]*)"@,
        Pattern::RustEnum.text() == r"(?m)^\s*(?:pub(?:\([^)]*\))?\s+)?enum\s+([A-Za-z_][A-Za-z0-9_]*)"@,
        Pattern::RustTrait.text() == r"(?m)^\s*(?:pub(?:\([^)]*\))?\s+)?trait\s+([A-Za-z_][A-Za-z0-9_]*)"@,
        Pattern::PythonDef.text() == r"(?m)^\s*def\s+([A-Za-z_][A-Za-z0-9_]*)"@,
        Pattern::PythonClass.text() == r"(?m)^\s*class\s+([A-Za-z_][A-Za-z0-9_]*)"@,
        Pattern::JsFunction.text() == r"(?m)\bfunction\s+([A-Za-z_$][A-Za-z0-9_$]*)"@,
        Pattern::JsClass.text() == r"(?m)\bclass\s+([A-Za-z_$][A-Za-z0-9_$]*)"@,
        Pattern::JsConst.text() == r"(?m)^\s*(?:export\s+)?const\s+([A-Za-z_$][A-Za-z0-9_$]*)\s*="@,
        Pattern::GoFunc.text() == r"(?m)^\s*func\s+(?:\([^)]*\)\s*)?([A-Za-z_][A-Za-z0-9_]*)"@,
        Pattern::GoType.text() == r"(?m)^\s*type\s+([A-Za-z_][A-Za-z0-9_]*)"@,
{
}

} // verus!
