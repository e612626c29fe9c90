//! Types shared by every stage of the pipeline: source languages, the kinds
//! of nodes that the frontends report, and the error type.

use vstd::prelude::*;

verus! {

/// I/O errors travel through [`IcbError::Io`] untouched.
#[verifier::external_type_specification]
#[verifier::external_body]
pub struct ExIoError(std::io::Error);

/// Source languages that can be analysed.
///
/// For C++ two backends exist: [`Language::Cpp`] (the Clang frontend) and
/// [`Language::CppTreeSitter`] (the lightweight tree-sitter frontend).
#[derive(Debug, Clone, Copy, PartialEq, Eq, Structural, Hash)]
pub enum Language {
    Python,
    Cpp,
    CppTreeSitter,
    Rust,
    JavaScript,
    Go,
    Java,
    Ruby,
    Php,
    Swift,
    Kotlin,
    Scala,
    CSharp,
    Lua,
    R,
    Bash,
    Perl,
    Tcl,
    Dart,
    Unknown,
}

/// The kind of a fact (and of a graph node).
#[derive(Debug, Clone, Copy, PartialEq, Eq, Structural, Hash)]
pub enum NodeKind {
    Function,
    Class,
    Variable,
    Parameter,
    CallSite,
    Namespace,
    Enum,
}

/// Errors reported by the frontends and the graph engine.
#[derive(Debug)]
pub enum IcbError {
    Io(std::io::Error),
    Parse(String),
    UnsupportedLanguage(String),
    Graph(String),
    Serialization(String),
}

/// Function and class nodes are the "definitions" that calls resolve to.
pub open spec fn is_definition_kind(k: NodeKind) -> bool {
    k == NodeKind::Function || k == NodeKind::Class
}

/// Executable form of [`is_definition_kind`].
pub fn is_definition(k: NodeKind) -> (r: bool)
    ensures
        r == is_definition_kind(k),
{
    k == NodeKind::Function || k == NodeKind::Class
}

/// `std::io::Error`'s display text.  Nothing is claimed of it: the text
/// comes from the operating system.
#[verifier::external_body]
fn io_error_text(e: &std::io::Error) -> String {
    format!("{}", e)
}

/// The message of an error without its own text: a fixed prefix that says
/// which error it is, then the text it carries.
pub open spec fn error_message(e: IcbError) -> Seq<char> {
    match e {
        IcbError::Parse(s) => "Parse error: "@ + s@,
        IcbError::UnsupportedLanguage(s) => "Unsupported language: "@ + s@,
        IcbError::Graph(s) => "Graph error: "@ + s@,
        IcbError::Serialization(s) => "Serialisation error: "@ + s@,
        IcbError::Io(_) => "I/O error: "@,
    }
}

fn prefixed(prefix: &str, text: &str) -> (r: String)
    ensures
        r@ == prefix@ + text@,
{
    let mut s = prefix.to_owned();
    s.append(text);
    s
}

impl IcbError {
    /// The error's message: for I/O errors, `"I/O error: "` and the system's
    /// text; for the others, the prefix of [`error_message`] and the error's
    /// own text.
    pub fn message(&self) -> (r: String)
        ensures
            match *self {
                IcbError::Io(_) => exists|t: Seq<char>| r@ == error_message(*self) + t,
                _ => r@ == error_message(*self),
            },
    {
        match self {
            IcbError::Io(e) => {
                let t = io_error_text(e);
                let r = prefixed("I/O error: ", t.as_str());
                proof {
                    assert(r@ == error_message(*self) + t@);
                }
                r
            },
            IcbError::Parse(s) => prefixed("Parse error: ", s.as_str()),
            IcbError::UnsupportedLanguage(s) => prefixed("Unsupported language: ", s.as_str()),
            IcbError::Graph(s) => prefixed("Graph error: ", s.as_str()),
            IcbError::Serialization(s) => prefixed("Serialisation error: ", s.as_str()),
        }
    }
}

} // verus!
