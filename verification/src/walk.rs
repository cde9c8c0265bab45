//! Which files of a tree are looked at.

use vstd::prelude::*;

verus! {

/// The name of the file that lists further files to leave out.
pub const IGNORE_FILE: &'static str = ".ngiignore";

/// Override patterns for directories that are almost never useful to index.
///
/// Patterns with `**/` match at any depth, those that start with `!/` at the root
/// only: `target`, `build` and `dist` hold build output at the root of a project and
/// can be source directories below it.
pub open spec fn ignore_patterns() -> Seq<Seq<char>> {
    seq![
        "!**/node_modules/"@,
        "!**/venv/"@,
        "!**/.venv/"@,
        "!**/__pycache__/"@,
        "!/target/"@,
        "!**/.tox/"@,
        "!/dist/"@,
        "!**/.mypy_cache/"@,
        "!/build/"@,
        "!**/.eggs/"@,
        "!**/*.egg-info/"@,
        "!**/.ngi/"@,
    ]
}

/// The texts of string slices.
pub open spec fn str_texts(strs: Seq<&str>) -> Seq<Seq<char>> {
    strs.map_values(|s: &str| s@)
}

/// Lists the override patterns that every walk applies.
pub fn default_ignore_patterns() -> (patterns: Vec<&'static str>)
    ensures
        str_texts(patterns@) == ignore_patterns(),
{
    let patterns: Vec<&'static str> = vec![
        "!**/node_modules/",
        "!**/venv/",
        "!**/.venv/",
        "!**/__pycache__/",
        "!/target/",
        "!**/.tox/",
        "!/dist/",
        "!**/.mypy_cache/",
        "!/build/",
        "!**/.eggs/",
        "!**/*.egg-info/",
        "!**/.ngi/",
    ];
    assert(str_texts(patterns@) =~= ignore_patterns());
    patterns
}

} // verus!
