//! Decisions of the `build` command: what is compiled, printed and linted.
use crate::paths::path_eq;
use crate::paths::path_parts;
use crate::paths::same_path;
use crate::test::filter::is_absolute;
use crate::test::filter::join_paths;
use crate::test::filter::path_join;
use crate::test::filter::starts_at_root;
use vstd::prelude::*;

verus! {

/// What the `build` command was asked for.
#[derive(Debug, Clone, Copy, PartialEq, Eq, Structural)]
pub struct BuildArgs {
    /// Print the names of the contracts.
    pub names: bool,
    /// Print the sizes of the contracts.
    pub sizes: bool,
}

/// Why a build of chosen paths is refused, where they hold `found` source files.
pub fn refuse_paths(paths_given: bool, found: usize) -> (r: Option<String>)
    ensures
        match r {
            Some(e) => paths_given && found == 0 && e@
                == "No source files found in specified build paths."@,
            None => !(paths_given && found == 0),
        },
{
    if paths_given && found == 0 {
        Some("No source files found in specified build paths.".to_owned())
    } else {
        None
    }
}

/// Where the sources come from that are linted.
#[derive(Debug, Clone, Copy, PartialEq, Eq, Structural)]
pub enum LintSources {
    /// The compiler was run on expanded sources: those.
    Expanded,
    /// The compiler was not run, and there are macros: the sources are expanded for the linter.
    ExpandNow,
    /// The sources on disk.
    OnDisk,
}

/// Decides where the sources come from that are linted.
pub fn lint_sources(were_expanded: bool, has_macros: bool) -> (r: LintSources)
    ensures
        r == if were_expanded {
            LintSources::Expanded
        } else if has_macros {
            LintSources::ExpandNow
        } else {
            LintSources::OnDisk
        },
{
    if were_expanded {
        LintSources::Expanded
    } else if has_macros {
        LintSources::ExpandNow
    } else {
        LintSources::OnDisk
    }
}

impl BuildArgs {
    /// Whether the compiler's output is printed as JSON.
    pub fn prints_json(&self, is_json: bool) -> (r: bool)
        ensures
            r == (is_json && !self.names && !self.sizes),
    {
        is_json && !self.names && !self.sizes
    }
}

/// Whether the sources are linted: where that is configured and they compile.
pub fn should_lint(lint_on_build: bool, has_errors: bool) -> (r: bool)
    ensures
        r == (lint_on_build && !has_errors),
{
    lint_on_build && !has_errors
}

/// `rest`, taken from `base` unless it starts at the root.
pub open spec fn resolved(base: Seq<char>, rest: Seq<char>) -> Seq<char> {
    if is_absolute(rest) {
        rest
    } else {
        path_join(base, rest)
    }
}

fn resolve(base: &str, rest: &str) -> (r: String)
    ensures
        r@ == resolved(base@, rest@),
{
    if starts_at_root(rest) {
        rest.to_owned()
    } else {
        join_paths(base, rest)
    }
}

/// Some path of `list` is `path`.
pub open spec fn has_path(list: Seq<String>, path: Seq<char>) -> bool {
    exists|i: int| 0 <= i < list.len() && path_eq((#[trigger] list[i])@, path)
}

/// Some path of `list`, taken from `base`, is `path`.
pub open spec fn has_path_from(list: Seq<String>, base: Seq<char>, path: Seq<char>) -> bool {
    exists|i: int| 0 <= i < list.len() && path_eq(resolved(base, (#[trigger] list[i])@), path)
}

fn contains_path(list: &Vec<String>, path: &str) -> (r: bool)
    ensures
        r == has_path(list@, path@),
{
    let mut i: usize = 0;
    while i < list.len()
        invariant
            i <= list@.len(),
            forall|j: int| 0 <= j < i ==> !path_eq((#[trigger] list@[j])@, path@),
        decreases list@.len() - i,
    {
        if same_path(list[i].as_str(), path) {
            assert(path_eq(list@[i as int]@, path@));
            return true;
        }
        i = i + 1;
    }
    false
}

fn contains_path_from(list: &Vec<String>, base: &str, path: &str) -> (r: bool)
    ensures
        r == has_path_from(list@, base@, path@),
{
    let mut i: usize = 0;
    while i < list.len()
        invariant
            i <= list@.len(),
            forall|j: int|
                0 <= j < i ==> !path_eq(resolved(base@, (#[trigger] list@[j])@), path@),
        decreases list@.len() - i,
    {
        let full = resolve(base, list[i].as_str());
        if same_path(full.as_str(), path) {
            assert(path_eq(resolved(base@, list@[i as int]@), path@));
            return true;
        }
        i = i + 1;
    }
    false
}

/// Whether a file is linted. Where files were chosen, those are; otherwise all are that are not
/// ignored and that `not_skipped` admits. Chosen and ignored files are compared with the file as it
/// is, and from the current directory.
pub fn lints_file(
    path: &str,
    chosen: Option<&Vec<String>>,
    current_dir: &str,
    not_skipped: bool,
    ignored: &Vec<String>,
) -> (r: bool)
    ensures
        r == match chosen {
            Some(files) => has_path_from(files@, current_dir@, path@),
            None => not_skipped && !has_path(ignored@, path@) && !has_path(
                ignored@,
                resolved(current_dir@, path@),
            ),
        },
{
    match chosen {
        Some(files) => contains_path_from(files, current_dir, path),
        None => {
            let full = resolve(current_dir, path);
            not_skipped && !(contains_path(ignored, path) || contains_path(ignored, full.as_str()))
        },
    }
}

/// What is warned of where there is nothing to lint though files were selected.
pub fn lint_warning(sources: usize, selected: usize) -> (r: Option<String>)
    ensures
        match r {
            Some(w) => sources == 0 && selected > 0 && w@
                == "unable to lint. Solar only supports Solidity versions >=0.8.0"@,
            None => !(sources == 0 && selected > 0),
        },
{
    if sources == 0 && selected > 0 {
        Some("unable to lint. Solar only supports Solidity versions >=0.8.0".to_owned())
    } else {
        None
    }
}

/// A path that starts at the root stays as it is, and any other is taken from the directory, with one
/// separator between the two. A list has a path where one of its own has the same parts.
pub proof fn law_paths_are_taken_from_the_directory(
    base: Seq<char>,
    rest: Seq<char>,
    list: Seq<String>,
    path: Seq<char>,
    i: int,
)
    ensures
        rest.len() > 0 && rest[0] == '/' ==> resolved(base, rest) == rest,
        (rest.len() == 0 || rest[0] != '/') && base.len() > 0 && base.last() != '/' ==> resolved(
            base,
            rest,
        ) == base + seq!['/'] + rest,
        (rest.len() == 0 || rest[0] != '/') && (base.len() == 0 || base.last() == '/') ==> resolved(
            base,
            rest,
        ) == base + rest,
        0 <= i < list.len() && path_parts(list[i]@) == path_parts(path) ==> has_path(list, path),
        0 <= i < list.len() && path_parts(resolved(base, list[i]@)) == path_parts(path)
            ==> has_path_from(list, base, path),
        has_path(list, path) ==> exists|j: int|
            #![trigger list[j]]
            0 <= j < list.len() && path_parts(list[j]@) == path_parts(path),
        has_path_from(list, base, path) ==> exists|j: int|
            #![trigger list[j]]
            0 <= j < list.len() && path_parts(resolved(base, list[j]@)) == path_parts(path),
{
}

} // verus!
