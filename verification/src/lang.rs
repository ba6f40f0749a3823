//! The fixed language table and the path helpers around it: which
//! extension names which language, which file names count as hidden, and
//! where a file name's extension begins.

use vstd::prelude::*;
use vstd::string::StrSliceExecFns;

verus! {

/// Compares two string slices character by character.
pub fn str_eq(a: &str, b: &str) -> (r: bool)
    ensures
        r == (a@ == b@),
{
    let na = a.unicode_len();
    let nb = b.unicode_len();
    if na != nb {
        return false;
    }
    let mut i: usize = 0;
    while i < na
        invariant
            i <= na,
            na == a@.len(),
            na == b@.len(),
            forall|k: int| 0 <= k < i ==> a@[k] == b@[k],
        decreases na - i,
    {
        if a.get_char(i) != b.get_char(i) {
            return false;
        }
        i = i + 1;
    }
    proof {
        assert(a@ =~= b@);
    }
    true
}

/// The language name that the fixed table gives to a file extension;
/// `"unrecognized"` for any extension outside the table. Case-sensitive.
pub open spec fn language_name_spec(ext: Seq<char>) -> Seq<char> {
    if ext == "rs"@ {
        "Rust"@
    } else if ext == "c"@ {
        "C"@
    } else if ext == "h"@ {
        "C Header"@
    } else if ext == "cpp"@ {
        "C++"@
    } else if ext == "hpp"@ {
        "C++ Header"@
    } else if ext == "java"@ {
        "Java"@
    } else if ext == "js"@ {
        "JavaScript"@
    } else if ext == "ts"@ {
        "TypeScript"@
    } else if ext == "py"@ {
        "Python"@
    } else if ext == "rb"@ {
        "Ruby"@
    } else if ext == "sh"@ {
        "Shell"@
    } else if ext == "pl"@ {
        "Perl"@
    } else if ext == "go"@ {
        "Go"@
    } else if ext == "sql"@ {
        "SQL"@
    } else if ext == "lisp"@ {
        "Lisp"@
    } else if ext == "scm"@ {
        "Scheme"@
    } else if ext == "html"@ {
        "HTML"@
    } else if ext == "css"@ {
        "CSS"@
    } else {
        "unrecognized"@
    }
}

/// An extension takes part in a scan only if the table knows it.
pub open spec fn is_recognized(ext: Seq<char>) -> bool {
    language_name_spec(ext) != "unrecognized"@
}

/// Resolves a file extension to its language name, or to
/// `"unrecognized"` for an extension outside the fixed table.
pub fn get_language_name(ext: &str) -> (r: &'static str)
    ensures
        r@ == language_name_spec(ext@),
{
    if str_eq(ext, "rs") {
        "Rust"
    } else if str_eq(ext, "c") {
        "C"
    } else if str_eq(ext, "h") {
        "C Header"
    } else if str_eq(ext, "cpp") {
        "C++"
    } else if str_eq(ext, "hpp") {
        "C++ Header"
    } else if str_eq(ext, "java") {
        "Java"
    } else if str_eq(ext, "js") {
        "JavaScript"
    } else if str_eq(ext, "ts") {
        "TypeScript"
    } else if str_eq(ext, "py") {
        "Python"
    } else if str_eq(ext, "rb") {
        "Ruby"
    } else if str_eq(ext, "sh") {
        "Shell"
    } else if str_eq(ext, "pl") {
        "Perl"
    } else if str_eq(ext, "go") {
        "Go"
    } else if str_eq(ext, "sql") {
        "SQL"
    } else if str_eq(ext, "lisp") {
        "Lisp"
    } else if str_eq(ext, "scm") {
        "Scheme"
    } else if str_eq(ext, "html") {
        "HTML"
    } else if str_eq(ext, "css") {
        "CSS"
    } else {
        "unrecognized"
    }
}

/// A file name marks its entry hidden when it begins with a dot.
pub open spec fn is_hidden_name(name: Seq<char>) -> bool {
    name.len() > 0 && name[0] == '.'
}

/// Whether a directory entry should be skipped as hidden, judged by its
/// file name alone.
pub fn is_hidden(name: &str) -> (r: bool)
    ensures
        r == is_hidden_name(name@),
{
    name.unicode_len() > 0 && name.get_char(0) == '.'
}

/// The index just after the last `/` of a path, or `0` when it has none:
/// where the path's file name begins.
pub open spec fn last_slash_end(s: Seq<char>) -> int
    decreases s.len(),
{
    if s.len() == 0 {
        0
    } else if s.last() == '/' {
        s.len() as int
    } else {
        last_slash_end(s.drop_last())
    }
}

/// The index of the last `.` of a sequence, or `-1` when it has none.
pub open spec fn last_dot_at(s: Seq<char>) -> int
    decreases s.len(),
{
    if s.len() == 0 {
        -1
    } else if s.last() == '.' {
        s.len() - 1
    } else {
        last_dot_at(s.drop_last())
    }
}

/// The path with its trailing `/` separators dropped: they name no
/// component of their own.
pub open spec fn strip_trailing_slashes(s: Seq<char>) -> Seq<char>
    decreases s.len(),
{
    if s.len() > 0 && s.last() == '/' {
        strip_trailing_slashes(s.drop_last())
    } else {
        s
    }
}

/// The extension of a path: what follows the last `.` of its file name
/// (the part after the last `/`, trailing separators ignored), provided
/// that dot is not the file name's first character. A name with no dot,
/// or only a leading one, has no extension; neither has the parent
/// component `..`. A lone `.` component is taken as a file name, not
/// resolved away.
pub open spec fn extension_of(path: Seq<char>) -> Option<Seq<char>> {
    let stem = strip_trailing_slashes(path);
    let comp = stem.skip(last_slash_end(stem));
    let d = last_dot_at(comp);
    if comp == seq!['.', '.'] {
        None
    } else if d > 0 {
        Some(comp.skip(d + 1))
    } else {
        None
    }
}

} // verus!
