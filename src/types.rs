//! Data produced by per-language source extraction.
use vstd::prelude::*;

verus! {

/// Supported languages.
#[derive(Debug, Clone, Copy, PartialEq, Eq, Hash, Structural)]
pub enum Language {
    TypeScript,
    JavaScript,
    Python,
    Java,
    CSharp,
    Php,
    Go,
    Rust,
    Cpp,
    C,
}

/// The lower-case form of a string, as `str::to_lowercase` computes it.
pub uninterp spec fn lower_of(s: Seq<char>) -> Seq<char>;

/// Relies on `str::to_lowercase`: the result depends on the characters alone,
/// and the empty string stays empty.
#[verifier::external_body]
fn lowercase(s: &str) -> (r: String)
    ensures
        r@ == lower_of(s@),
        s@.len() == 0 ==> r@.len() == 0,
{
    s.to_lowercase()
}

/// The language that a lower-case file extension names.
pub open spec fn language_of_extension(e: Seq<char>) -> Option<Language> {
    if e == seq!['t', 's'] || e == seq!['t', 's', 'x'] || e == seq!['m', 't', 's'] || e == seq!['c', 't', 's'] {
        Some(Language::TypeScript)
    } else if e == seq!['j', 's'] || e == seq!['j', 's', 'x'] || e == seq!['m', 'j', 's'] || e == seq!['c', 'j', 's'] {
        Some(Language::JavaScript)
    } else if e == seq!['p', 'y'] || e == seq!['p', 'y', 'i'] {
        Some(Language::Python)
    } else if e == seq!['j', 'a', 'v', 'a'] {
        Some(Language::Java)
    } else if e == seq!['c', 's'] {
        Some(Language::CSharp)
    } else if e == seq!['p', 'h', 'p'] {
        Some(Language::Php)
    } else if e == seq!['g', 'o'] {
        Some(Language::Go)
    } else if e == seq!['r', 's'] {
        Some(Language::Rust)
    } else if e == seq!['c', 'p', 'p'] || e == seq!['c', 'c'] || e == seq!['c', 'x', 'x'] || e == seq!['h', 'p', 'p'] || e == seq!['h', 'h'] || e == seq!['h', 'x', 'x'] {
        Some(Language::Cpp)
    } else if e == seq!['c'] || e == seq!['h'] {
        Some(Language::C)
    } else {
        None
    }
}

/// The text after the last `.` of `s`; all of `s` when it holds none.
pub open spec fn last_segment(s: Seq<char>) -> Seq<char>
    decreases s.len(),
{
    if s.len() == 0 {
        s
    } else if s.last() == '.' {
        Seq::empty()
    } else {
        last_segment(s.drop_last()).push(s.last())
    }
}

/// Whether the characters of `s` are exactly those of `w`.
pub fn str_equals(s: &str, w: &str) -> (r: bool)
    ensures
        r == (s@ == w@),
{
    let n = s.unicode_len();
    if n != w.unicode_len() {
        return false;
    }
    let mut i: usize = 0;
    while i < n
        invariant
            n == s@.len(),
            n == w@.len(),
            i <= n,
            s@.subrange(0, i as int) == w@.subrange(0, i as int),
        decreases n - i,
    {
        if s.get_char(i) != w.get_char(i) {
            return false;
        }
        assert(s@.subrange(0, i + 1) == s@.subrange(0, i as int).push(s@[i as int]));
        assert(w@.subrange(0, i + 1) == w@.subrange(0, i as int).push(w@[i as int]));
        i = i + 1;
    }
    assert(s@ == s@.subrange(0, n as int));
    assert(w@ == w@.subrange(0, n as int));
    true
}

impl Language {
    /// The language of an extension that is already in lower case.
    pub fn from_lowercase_extension(e: &str) -> (r: Option<Language>)
        ensures
            r == language_of_extension(e@),
    {
        proof {
            reveal_strlit("ts");
            assert("ts"@ =~= seq!['t', 's']);
            reveal_strlit("tsx");
            assert("tsx"@ =~= seq!['t', 's', 'x']);
            reveal_strlit("mts");
            assert("mts"@ =~= seq!['m', 't', 's']);
            reveal_strlit("cts");
            assert("cts"@ =~= seq!['c', 't', 's']);
            reveal_strlit("js");
            assert("js"@ =~= seq!['j', 's']);
            reveal_strlit("jsx");
            assert("jsx"@ =~= seq!['j', 's', 'x']);
            reveal_strlit("mjs");
            assert("mjs"@ =~= seq!['m', 'j', 's']);
            reveal_strlit("cjs");
            assert("cjs"@ =~= seq!['c', 'j', 's']);
            reveal_strlit("py");
            assert("py"@ =~= seq!['p', 'y']);
            reveal_strlit("pyi");
            assert("pyi"@ =~= seq!['p', 'y', 'i']);
            reveal_strlit("java");
            assert("java"@ =~= seq!['j', 'a', 'v', 'a']);
            reveal_strlit("cs");
            assert("cs"@ =~= seq!['c', 's']);
            reveal_strlit("php");
            assert("php"@ =~= seq!['p', 'h', 'p']);
            reveal_strlit("go");
            assert("go"@ =~= seq!['g', 'o']);
            reveal_strlit("rs");
            assert("rs"@ =~= seq!['r', 's']);
            reveal_strlit("cpp");
            assert("cpp"@ =~= seq!['c', 'p', 'p']);
            reveal_strlit("cc");
            assert("cc"@ =~= seq!['c', 'c']);
            reveal_strlit("cxx");
            assert("cxx"@ =~= seq!['c', 'x', 'x']);
            reveal_strlit("hpp");
            assert("hpp"@ =~= seq!['h', 'p', 'p']);
            reveal_strlit("hh");
            assert("hh"@ =~= seq!['h', 'h']);
            reveal_strlit("hxx");
            assert("hxx"@ =~= seq!['h', 'x', 'x']);
            reveal_strlit("c");
            assert("c"@ =~= seq!['c']);
            reveal_strlit("h");
            assert("h"@ =~= seq!['h']);
        }
        if str_equals(e, "ts") || str_equals(e, "tsx") || str_equals(e, "mts") || str_equals(e, "cts") {
            Some(Language::TypeScript)
        } else if str_equals(e, "js") || str_equals(e, "jsx") || str_equals(e, "mjs") || str_equals(e, "cjs") {
            Some(Language::JavaScript)
        } else if str_equals(e, "py") || str_equals(e, "pyi") {
            Some(Language::Python)
        } else if str_equals(e, "java") {
            Some(Language::Java)
        } else if str_equals(e, "cs") {
            Some(Language::CSharp)
        } else if str_equals(e, "php") {
            Some(Language::Php)
        } else if str_equals(e, "go") {
            Some(Language::Go)
        } else if str_equals(e, "rs") {
            Some(Language::Rust)
        } else if str_equals(e, "cpp") || str_equals(e, "cc") || str_equals(e, "cxx") || str_equals(e, "hpp") || str_equals(e, "hh") || str_equals(e, "hxx") {
            Some(Language::Cpp)
        } else if str_equals(e, "c") || str_equals(e, "h") {
            Some(Language::C)
        } else {
            None
        }
    }

    /// The language of a file extension, in any letter case.
    pub fn from_extension(ext: &str) -> (r: Option<Language>)
        ensures
            r == language_of_extension(lower_of(ext@)),
    {
        let lowered = lowercase(ext);
        Language::from_lowercase_extension(lowered.as_str())
    }

    /// The language of a file path, by the text after its last dot.
    pub fn from_path(path: &str) -> (r: Option<Language>)
        ensures
            r == language_of_extension(lower_of(last_segment(path@))),
    {
        let n = path.unicode_len();
        let mut start: usize = 0;
        let mut i: usize = 0;
        while i < n
            invariant
                n == path@.len(),
                start <= i <= n,
                last_segment(path@.subrange(0, i as int)) == path@.subrange(start as int, i as int),
            decreases n - i,
        {
            let c = path.get_char(i);
            proof {
                let pre = path@.subrange(0, i + 1);
                assert(pre.drop_last() == path@.subrange(0, i as int));
                assert(pre.last() == c);
            }
            if c == '.' {
                start = i + 1;
                assert(path@.subrange(start as int, i + 1) =~= Seq::<char>::empty());
            } else {
                assert(path@.subrange(start as int, i + 1) =~= path@.subrange(start as int, i as int).push(c));
            }
            i = i + 1;
        }
        assert(path@.subrange(0, n as int) =~= path@);
        let ext = path.substring_char(start, n);
        Language::from_extension(ext)
    }
}

/// Position in source code.
#[derive(Debug, Clone, Copy, PartialEq, Eq, Structural)]
pub struct Position {
    pub line: u32,
    pub column: u32,
}

/// Range in source code.
#[derive(Debug, Clone, Copy, PartialEq, Eq, Structural)]
pub struct Range {
    pub start: Position,
    pub end: Position,
}

impl Range {
    pub fn new(start_line: u32, start_col: u32, end_line: u32, end_col: u32) -> (r: Range)
        ensures
            r.start == (Position { line: start_line, column: start_col }),
            r.end == (Position { line: end_line, column: end_col }),
    {
        Range {
            start: Position { line: start_line, column: start_col },
            end: Position { line: end_line, column: end_col },
        }
    }
}

/// A function or method extracted from source code.
#[derive(Debug, Clone)]
pub struct FunctionInfo {
    /// Function name.
    pub name: String,
    /// Fully qualified name (e.g. `ClassName.methodName`).
    pub qualified_name: Option<String>,
    pub parameters: Vec<ParameterInfo>,
    /// Return type, where the source states one.
    pub return_type: Option<String>,
    /// Whether the function is exported or public.
    pub is_exported: bool,
    pub is_async: bool,
    pub is_generator: bool,
    /// Source location.
    pub range: Range,
    /// Decorators and attributes.
    pub decorators: Vec<String>,
    /// Documentation comment.
    pub doc_comment: Option<String>,
}

/// A parameter of a function.
#[derive(Debug, Clone)]
pub struct ParameterInfo {
    pub name: String,
    pub type_annotation: Option<String>,
    pub default_value: Option<String>,
    pub is_rest: bool,
}

/// A class extracted from source code.
#[derive(Debug, Clone)]
pub struct ClassInfo {
    pub name: String,
    pub extends: Option<String>,
    pub implements: Vec<String>,
    pub is_exported: bool,
    pub is_abstract: bool,
    pub methods: Vec<FunctionInfo>,
    pub properties: Vec<PropertyInfo>,
    pub range: Range,
    pub decorators: Vec<String>,
}

/// A property of a class or a field of a struct.
#[derive(Debug, Clone)]
pub struct PropertyInfo {
    pub name: String,
    pub type_annotation: Option<String>,
    pub is_static: bool,
    pub is_readonly: bool,
    pub visibility: Visibility,
    /// Struct tags (Go field tags such as `json:"name"`).
    pub tags: Option<Vec<StructTag>>,
}

/// A struct tag: a key and its value.
#[derive(Debug, Clone)]
pub struct StructTag {
    pub key: String,
    pub value: String,
}

/// Visibility modifier.
#[derive(Debug, Clone, Copy, PartialEq, Eq, Structural)]
pub enum Visibility {
    Public,
    Private,
    Protected,
}

/// An import statement.
#[derive(Debug, Clone)]
pub struct ImportInfo {
    /// Module imported from.
    pub source: String,
    /// Named imports (e.g. `{ foo, bar }`).
    pub named: Vec<String>,
    /// Default import name.
    pub default: Option<String>,
    /// Namespace import (e.g. `* as ns`).
    pub namespace: Option<String>,
    /// Whether only types are imported.
    pub is_type_only: bool,
    pub range: Range,
}

/// An export statement.
#[derive(Debug, Clone)]
pub struct ExportInfo {
    /// Exported name.
    pub name: String,
    /// Original name, where the export renames.
    pub original_name: Option<String>,
    /// Module re-exported from.
    pub from_source: Option<String>,
    pub is_type_only: bool,
    pub is_default: bool,
    pub range: Range,
}

/// A call site in source code.
#[derive(Debug, Clone)]
pub struct CallSite {
    /// Name of the function called.
    pub callee: String,
    /// Receiver object (e.g. `this`, or `obj` in `obj.method()`).
    pub receiver: Option<String>,
    /// Number of arguments.
    pub arg_count: usize,
    /// Location of the call.
    pub range: Range,
}

/// A non-fatal error met while parsing.
#[derive(Debug, Clone)]
pub struct ParseError {
    pub message: String,
    pub range: Range,
}

/// What extraction found in one file.
#[derive(Debug, Clone)]
pub struct ParseResultSerialized {
    pub language: Language,
    pub functions: Vec<FunctionInfo>,
    pub classes: Vec<ClassInfo>,
    pub imports: Vec<ImportInfo>,
    pub exports: Vec<ExportInfo>,
    pub calls: Vec<CallSite>,
    pub errors: Vec<ParseError>,
    /// Parse duration in microseconds.
    pub parse_time_us: u64,
}

} // verus!
