//! The text printed for `--version`.

use vstd::prelude::*;
use vstd::string::StringExecFns;

verus! {

/// Five spaces: between the program's name and its version.
pub open spec fn name_gap() -> Seq<char> {
    seq![' ', ' ', ' ', ' ', ' ']
}

/// Two spaces: between the system-information library's name and its version.
pub open spec fn library_gap() -> Seq<char> {
    seq![' ', ' ']
}

/// The first line: the program's name, its version and, when known, the short git commit in
/// parentheses.
pub open spec fn program_line(name: Seq<char>, version: Seq<char>, git_sha: Option<Seq<char>>) -> Seq<char> {
    match git_sha {
        Some(sha) => name + name_gap() + version + seq![' ', '('] + sha + seq![')'],
        None => name + name_gap() + version,
    }
}

/// The second line: `libmacchina` and the library's version.
pub open spec fn library_line(library_version: Seq<char>) -> Seq<char> {
    "libmacchina"@ + library_gap() + library_version
}

/// The two lines printed for `--version`, without their line ends.
pub fn version_lines(name: &str, version: &str, git_sha: Option<&str>, library_version: &str) -> (r: (String, String))
    ensures
        r.0@ == program_line(name@, version@, match git_sha { Some(s) => Some(s@), None => None }),
        r.1@ == library_line(library_version@),
{
    let mut first = String::new();
    first.append(name);
    first.append("     ");
    first.append(version);
    proof {
        reveal_strlit("     ");
    }
    match git_sha {
        Some(sha) => {
            first.append(" (");
            first.append(sha);
            first.append(")");
            proof {
                reveal_strlit(" (");
                reveal_strlit(")");
            }
        },
        None => {},
    }
    let mut second = String::new();
    second.append("libmacchina");
    second.append("  ");
    second.append(library_version);
    proof {
        reveal_strlit("  ");
    }
    assert(first@ =~= program_line(name@, version@, match git_sha { Some(s) => Some(s@), None => None }));
    assert(second@ =~= library_line(library_version@));
    (first, second)
}

} // verus!
