//! Finding the Julia project that a command works on.
use vstd::prelude::*;

use crate::cli::{Command, CommandModel};
use crate::text::{chars_of, extend_str, string_of};

verus! {

/// What `jpm init` writes into a new `Project.toml`.
pub const PROJECT_TEMPLATE: &'static str = "[deps]\n";

/// The message when no project can be found.
pub open spec fn no_project_text() -> Seq<char> {
    "no Julia project found; run 'jpm init' or pass --project <PATH>"@
}

/// The project directory that a command needs, given what the search found: the search's
/// own error, the directory, or an error when there is none.
pub open spec fn discover_spec<P>(found: Result<Option<P>, Seq<char>>) -> Result<P, Seq<char>> {
    match found {
        Err(e) => Err(e),
        Ok(Some(d)) => Ok(d),
        Ok(None) => Err(no_project_text()),
    }
}

/// The result of a search, with its error message seen as characters.
pub open spec fn found_view<P>(found: Result<Option<P>, String>) -> Result<Option<P>, Seq<char>> {
    match found {
        Err(e) => Err(e@),
        Ok(d) => Ok(d),
    }
}

/// A result whose error message is seen as characters.
pub open spec fn path_result<P>(r: Result<P, String>) -> Result<P, Seq<char>> {
    match r {
        Ok(p) => Ok(p),
        Err(e) => Err(e@),
    }
}

/// The project directory from the result of the search for one.
pub fn discover<P>(found: Result<Option<P>, String>) -> (r: Result<P, String>)
    ensures
        path_result(r) == discover_spec(found_view(found)),
{
    match found {
        Err(e) => Err(e),
        Ok(Some(d)) => Ok(d),
        Ok(None) => Err(String::from_str("no Julia project found; run 'jpm init' or pass --project <PATH>")),
    }
}

/// A directory on the way from the working directory up to the root, and whether it holds
/// a `Project.toml` file.
pub struct Ancestor<P> {
    pub path: P,
    pub has_project_file: bool,
}

/// The first of the directories that holds a `Project.toml` file.
pub open spec fn nearest_project<P>(ancestors: Seq<Ancestor<P>>) -> Option<P>
    decreases ancestors.len(),
{
    if ancestors.len() == 0 {
        None
    } else if ancestors[0].has_project_file {
        Some(ancestors[0].path)
    } else {
        nearest_project(ancestors.drop_first())
    }
}

/// The search for a project: the one named on the command line or in `JPM_PROJECT` (as
/// checked by `validate`) when there is one, else the nearest directory from the working
/// directory up that holds a `Project.toml` file.
pub open spec fn discover_optional_spec<P>(explicit: Option<Result<P, Seq<char>>>, ancestors: Seq<Ancestor<P>>) -> Result<Option<P>, Seq<char>> {
    match explicit {
        Some(Err(e)) => Err(e),
        Some(Ok(d)) => Ok(Some(d)),
        None => Ok(nearest_project(ancestors)),
    }
}

/// Looks for the project: `explicit` is the checked project that was named, if one was;
/// `ancestors` are the working directory and the directories above it, nearest first.
pub fn discover_optional<P>(explicit: Option<Result<P, String>>, ancestors: Vec<Ancestor<P>>) -> (r: Result<Option<P>, String>)
    ensures
        found_view(r) == discover_optional_spec(
            match explicit {
                Some(x) => Some(path_result(x)),
                None => None,
            },
            ancestors@,
        ),
{
    match explicit {
        Some(Err(e)) => {
            return Err(e);
        },
        Some(Ok(d)) => {
            return Ok(Some(d));
        },
        None => {},
    }
    assert(explicit is None);
    let ghost all = ancestors@;
    let mut remaining = ancestors;
    let ghost mut i: int = 0;
    assert(all.skip(0) == all);
    while remaining.len() > 0
        invariant
            explicit is None,
            all == ancestors@,
            0 <= i <= all.len(),
            remaining@ == all.skip(i as int),
            nearest_project(all) == nearest_project(all.skip(i as int)),
        decreases remaining@.len(),
    {
        let a = remaining.remove(0);
        assert(a == all[i as int]);
        assert(all.skip(i as int)[0] == all[i as int]);
        if a.has_project_file {
            return Ok(Some(a.path));
        }
        assert(all.skip(i as int).drop_first() == all.skip(i + 1));
        proof {
            i = i + 1;
        }
    }
    Ok(None)
}

/// What is known on disk of a project named on the command line: whether the path is a
/// file, and whether the path holds a `Project.toml` file; with the directory of each of
/// the two candidate project files (the directory of the path, and the path itself).
pub struct NamedProject<P> {
    pub is_file: bool,
    pub file_directory: P,
    pub holds_project_file: bool,
    pub directory: P,
}

/// The check of a project named on the command line as `path`: its project file is the
/// path itself when that is a file, else the `Project.toml` inside it; the project is the
/// directory of that file, when it is a file.
pub open spec fn validate_spec<P>(path: Seq<char>, named: NamedProject<P>) -> Result<P, Seq<char>> {
    if named.is_file {
        Ok(named.file_directory)
    } else if named.holds_project_file {
        Ok(named.directory)
    } else {
        Err("'"@ + path + "' is not a Julia project (Project.toml not found)"@)
    }
}

/// Checks a project named on the command line as `path`, from what is known of it on disk.
pub fn validate<P>(path: &str, named: NamedProject<P>) -> (r: Result<P, String>)
    ensures
        path_result(r) == validate_spec(path@, named),
{
    if named.is_file {
        Ok(named.file_directory)
    } else if named.holds_project_file {
        Ok(named.directory)
    } else {
        let mut m = chars_of("'");
        extend_str(&mut m, path);
        extend_str(&mut m, "' is not a Julia project (Project.toml not found)");
        Err(string_of(m.as_slice()))
    }
}

/// What a command needs of the project before it runs.
#[derive(Debug, Clone, Copy, PartialEq, Eq)]
pub enum ProjectUse {
    /// It does not look for a project.
    NotNeeded,
    /// It uses the project if one is found.
    Optional,
    /// It uses the project if one is found, else the working directory.
    OptionalOrWorkingDirectory,
    /// It fails when no project is found.
    Required,
}

/// What `c` needs of the project: `help`, `version`, `init` and `new` none; `doctor` one if
/// there is one; `use` one or the working directory; every other command one.
pub open spec fn project_use_of<R>(c: CommandModel<R>) -> ProjectUse {
    match c {
        CommandModel::Help | CommandModel::Version | CommandModel::Init { .. } | CommandModel::New { .. } => ProjectUse::NotNeeded,
        CommandModel::Doctor => ProjectUse::Optional,
        CommandModel::Use { .. } => ProjectUse::OptionalOrWorkingDirectory,
        _ => ProjectUse::Required,
    }
}

/// What `command` needs of the project before it runs.
pub fn project_use<R>(command: &Command<R>) -> (r: ProjectUse)
    ensures
        r == project_use_of(command.model()),
{
    match command {
        Command::Help | Command::Version | Command::Init { .. } | Command::New { .. } => ProjectUse::NotNeeded,
        Command::Doctor => ProjectUse::Optional,
        Command::Use { .. } => ProjectUse::OptionalOrWorkingDirectory,
        _ => ProjectUse::Required,
    }
}

} // verus!
