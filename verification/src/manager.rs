//! The parser manager: picks the frontend for a language, and decides which
//! files of a directory belong to a language.
//!
//! Walking directories and reading files is left to the caller; this module
//! holds the decisions.

use vstd::prelude::*;
use vstd::string::StringSliceAdditionalSpecFns;
use crate::common::{IcbError, Language};
use crate::facts::{RawNode, facts_view};
use crate::heuristic::parser::{parse_universal, universal_facts};
use crate::lang::common::{Frontend, syntax_wf};
use crate::lang::grammar::frontend_result;
use crate::text::str_eq;

verus! {

/// The extension of the last component of a path (the text after its last
/// dot, unless the name starts with its only dot), as `std::path` defines it.
pub uninterp spec fn path_extension(path: Seq<char>) -> Option<Seq<char>>;

/// The lowercase mapping of a string, as `str::to_lowercase` defines it.
pub uninterp spec fn lowercase(s: Seq<char>) -> Seq<char>;

/// What is left of `path` after the leading components `base`, as
/// `std::path::Path::strip_prefix` defines it (`None` when `base` is not a
/// prefix of `path`).
pub uninterp spec fn path_strip_prefix(path: Seq<char>, base: Seq<char>) -> Option<Seq<char>>;

/// `std::path::Path::extension` of a path given as a string.
#[verifier::external_body]
fn file_extension(path: &str) -> (r: Option<String>)
    ensures
        r.deep_view() == path_extension(path@),
{
    match std::path::Path::new(path).extension() {
        Some(e) => e.to_str().map(|s| s.to_string()),
        None => None,
    }
}

/// `str::to_lowercase`.
#[verifier::external_body]
fn to_lowercase(s: &str) -> (r: String)
    ensures
        r@ == lowercase(s@),
{
    s.to_lowercase()
}

/// `std::path::Path::strip_prefix` on paths given as strings.
#[verifier::external_body]
fn strip_prefix(path: &str, base: &str) -> (r: Option<String>)
    ensures
        r.deep_view() == path_strip_prefix(path@, base@),
{
    match std::path::Path::new(path).strip_prefix(base) {
        Ok(p) => Some(p.to_string_lossy().to_string()),
        Err(_) => None,
    }
}

/// The tree-sitter frontend that handles a language, if any; the others go
/// to the universal heuristic parser.
pub open spec fn frontend_for(lang: Language) -> Option<Frontend> {
    match lang {
        Language::Python => Some(Frontend::Python { include_variables: false }),
        Language::CppTreeSitter => Some(Frontend::Cpp),
        Language::Go => Some(Frontend::Go),
        Language::Ruby => Some(Frontend::Ruby),
        _ => None,
    }
}

/// What [`ParserManager::parse_file`] promises for a language and source.
pub open spec fn parse_file_result(lang: Language, source: &str, r: Result<Vec<RawNode>, IcbError>) -> bool {
    match frontend_for(lang) {
        Some(fe) => frontend_result(fe, source.spec_bytes(), fe == Frontend::Cpp, r),
        None => match r {
            Ok(facts) => facts_view(facts@) == universal_facts(source.spec_bytes(), Seq::empty()),
            Err(_) => false,
        },
    }
}

/// Stateless parser manager.
pub struct ParserManager;

impl ParserManager {
    /// A parser manager.
    pub fn new() -> (r: Self) {
        ParserManager
    }

    /// Parse one source text with the frontend of its language: Python,
    /// C++ (tree-sitter), Go and Ruby have tree-sitter frontends; every
    /// other language goes to the universal heuristic parser, which never
    /// fails.  A frontend that fails gives a parse error.
    pub fn parse_file(&self, lang: Language, source: &str) -> (r: Result<Vec<RawNode>, IcbError>)
        requires
            source.spec_bytes().len() < usize::MAX,
        ensures
            parse_file_result(lang, source, r),
    {
        let fe = match lang {
            Language::Python => Frontend::Python { include_variables: false },
            Language::CppTreeSitter => Frontend::Cpp,
            Language::Go => Frontend::Go,
            Language::Ruby => Frontend::Ruby,
            _ => {
                let facts = parse_universal(source, "");
                proof {
                    reveal_strlit("");
                    assert(""@ =~= Seq::<char>::empty());
                }
                return Ok(facts);
            },
        };
        let r = match lang {
            Language::Python => crate::lang::python::parse_python(source),
            Language::CppTreeSitter => crate::cpp_tree_sitter::parse_cpp_file(source),
            Language::Go => crate::lang::go::parse_go(source),
            _ => crate::lang::ruby::parse_ruby(source),
        };
        r
    }
}

/// The file extensions of a language (none for an unknown language: every
/// file is then taken).
pub open spec fn language_extensions(lang: Language) -> Seq<Seq<char>> {
    match lang {
        Language::Python => seq!["py"@],
        Language::Cpp | Language::CppTreeSitter => seq![
            "c"@,
            "cpp"@,
            "cc"@,
            "cxx"@,
            "h"@,
            "hpp"@,
            "hxx"@,
            "hh"@,
            "inl"@,
            "inc"@,
        ],
        Language::Rust => seq!["rs"@],
        Language::JavaScript => seq!["js"@, "jsx"@, "ts"@, "tsx"@],
        Language::Go => seq!["go"@],
        Language::Java => seq!["java"@],
        Language::Ruby => seq!["rb"@],
        Language::Php => seq!["php"@],
        Language::Swift => seq!["swift"@],
        Language::Kotlin => seq!["kt"@, "kts"@],
        Language::Scala => seq!["scala"@],
        Language::CSharp => seq!["cs"@],
        Language::Lua => seq!["lua"@],
        Language::R => seq!["r"@],
        Language::Bash => seq!["sh"@, "bash"@],
        Language::Perl => seq!["pl"@, "pm"@],
        Language::Tcl => seq!["tcl"@],
        Language::Dart => seq!["dart"@],
        Language::Unknown => seq![],
    }
}

/// The views of a list of string slices.
pub open spec fn str_views(s: Seq<&str>) -> Seq<Seq<char>> {
    s.map_values(|x: &str| x@)
}

/// The file extensions accepted for a language.
pub fn extensions_for_language(lang: Language) -> (r: Vec<&'static str>)
    ensures
        str_views(r@) == language_extensions(lang),
{
    let r: Vec<&'static str> = match lang {
        Language::Python => vec!["py"],
        Language::Cpp | Language::CppTreeSitter => vec!["c", "cpp", "cc", "cxx", "h", "hpp", "hxx", "hh", "inl", "inc"],
        Language::Rust => vec!["rs"],
        Language::JavaScript => vec!["js", "jsx", "ts", "tsx"],
        Language::Go => vec!["go"],
        Language::Java => vec!["java"],
        Language::Ruby => vec!["rb"],
        Language::Php => vec!["php"],
        Language::Swift => vec!["swift"],
        Language::Kotlin => vec!["kt", "kts"],
        Language::Scala => vec!["scala"],
        Language::CSharp => vec!["cs"],
        Language::Lua => vec!["lua"],
        Language::R => vec!["r"],
        Language::Bash => vec!["sh", "bash"],
        Language::Perl => vec!["pl", "pm"],
        Language::Tcl => vec!["tcl"],
        Language::Dart => vec!["dart"],
        Language::Unknown => vec![],
    };
    assert(str_views(r@) =~= language_extensions(lang));
    r
}

/// Whether a file belongs to a language with the given extensions: every
/// file does when the list is empty; otherwise the file's extension, in
/// lowercase, must be one of them.
pub open spec fn included(path: Seq<char>, exts: Seq<Seq<char>>) -> bool {
    exts.len() == 0 || match path_extension(path) {
        Some(e) => exts.contains(lowercase(e)),
        None => false,
    }
}

/// Whether `path` should be included, given the allowed extensions (see
/// [`included`]).
pub fn should_include(path: &str, exts: &[&str]) -> (r: bool)
    ensures
        r == included(path@, str_views(exts@)),
{
    if exts.len() == 0 {
        return true;
    }
    match file_extension(path) {
        Some(ext) => {
            let lower = to_lowercase(ext.as_str());
            let mut i: usize = 0;
            while i < exts.len()
                invariant
                    i <= exts@.len(),
                    lower@ == lowercase(path_extension(path@)->0),
                    path_extension(path@) is Some,
                    forall|k: int| 0 <= k < i ==> exts@[k]@ != lower@,
                decreases exts@.len() - i,
            {
                if str_eq(exts[i], lower.as_str()) {
                    proof {
                        assert(str_views(exts@)[i as int] == lower@);
                    }
                    return true;
                }
                i = i + 1;
            }
            proof {
                if str_views(exts@).contains(lower@) {
                    let k = choose|k: int| 0 <= k < str_views(exts@).len() && str_views(exts@)[k] == lower@;
                    assert(exts@[k]@ == lower@);
                }
            }
            false
        },
        None => false,
    }
}

/// The path of a file relative to `base`: what is left after the leading
/// components `base`, or the whole path when `base` is not a prefix of it.
pub fn relative_path(path: &str, base: &str) -> (r: String)
    ensures
        r@ == match path_strip_prefix(path@, base@) {
            Some(rest) => rest,
            None => path@,
        },
{
    match strip_prefix(path, base) {
        Some(rest) => rest,
        None => path.to_owned(),
    }
}

/// The language named on the command line: `python`, `rust`, `javascript`,
/// or `cpp` / `c++` (the Clang frontend).
pub open spec fn language_named(s: Seq<char>) -> Option<Language> {
    if s == "python"@ {
        Some(Language::Python)
    } else if s == "rust"@ {
        Some(Language::Rust)
    } else if s == "javascript"@ {
        Some(Language::JavaScript)
    } else if s == "cpp"@ || s == "c++"@ {
        Some(Language::Cpp)
    } else {
        None
    }
}

/// Convert a language name to a [`Language`]; any other name is an
/// unsupported language, reported with the name.
pub fn parse_language(s: &str) -> (r: Result<Language, IcbError>)
    ensures
        match r {
            Ok(lang) => language_named(s@) == Some(lang),
            Err(e) => language_named(s@) is None && (e matches IcbError::UnsupportedLanguage(m) && m@ == s@),
        },
{
    if str_eq(s, "python") {
        Ok(Language::Python)
    } else if str_eq(s, "rust") {
        Ok(Language::Rust)
    } else if str_eq(s, "javascript") {
        Ok(Language::JavaScript)
    } else if str_eq(s, "cpp") || str_eq(s, "c++") {
        Ok(Language::Cpp)
    } else {
        Err(IcbError::UnsupportedLanguage(s.to_owned()))
    }
}

} // verus!
