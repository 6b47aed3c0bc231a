//! Making a path that a user typed absolute: `~/` stands for the home directory, and a
//! relative path is taken from the working directory.
use std::path::PathBuf;

use vstd::prelude::*;

use crate::text::{chars_of, extend_str, has_prefix, starts_with, string_of, sub_chars};

verus! {

#[verifier::external_type_specification]
#[verifier::external_body]
pub struct ExPathBuf(PathBuf);

/// `PathBuf::from` on text. How the text is split into components depends on the
/// platform's path rules, so nothing is stated of the result.
#[verifier::external_body]
fn path_from(value: &str) -> PathBuf {
    PathBuf::from(value)
}

/// `Path::join`: `rest` adjoined to `base`. Whether `rest` replaces `base` or is added
/// after a separator depends on the platform's path rules, so nothing is stated of the
/// result.
#[verifier::external_body]
fn join_path(base: &PathBuf, rest: &PathBuf) -> PathBuf {
    base.join(rest)
}

/// `Path::is_absolute`. What counts as absolute depends on the platform (a root on Unix,
/// a drive or share prefix with a root on Windows), so nothing is stated of the result.
#[verifier::external_body]
fn is_absolute_path(path: &PathBuf) -> bool {
    path.is_absolute()
}

/// What follows `~/` at the start of `value`, when it starts so.
pub open spec fn home_rest(value: Seq<char>) -> Option<Seq<char>> {
    if starts_with(value, "~/"@) {
        Some(value.skip(2))
    } else {
        None
    }
}

/// The message of a path result that failed.
pub open spec fn path_error(r: Result<PathBuf, String>) -> Option<Seq<char>> {
    match r {
        Ok(_) => None,
        Err(e) => Some(e@),
    }
}

/// The message when `~` cannot be expanded.
pub open spec fn no_home_text() -> Seq<char> {
    "cannot expand '~': HOME is not set"@
}

/// The message when the working directory, needed for a relative path, cannot be read.
pub open spec fn no_cwd_text(error: Seq<char>) -> Seq<char> {
    "cannot resolve package path: "@ + error
}

/// `path` made absolute: as it is when `is_absolute` says it already is, else taken from
/// the working directory `cwd`, which must then have been read.
pub fn anchored(path: PathBuf, is_absolute: bool, cwd: Result<PathBuf, String>) -> (r: Result<PathBuf, String>)
    ensures
        is_absolute ==> r == Ok::<PathBuf, String>(path),
        !is_absolute ==> match cwd {
            Ok(_) => r is Ok,
            Err(e) => path_error(r) == Some(no_cwd_text(e@)),
        },
{
    if is_absolute {
        return Ok(path);
    }
    match cwd {
        Ok(dir) => Ok(join_path(&dir, &path)),
        Err(e) => {
            let mut m = chars_of("cannot resolve package path: ");
            extend_str(&mut m, e.as_str());
            Err(string_of(m.as_slice()))
        },
    }
}

/// The absolute form of the path `value`: `~/rest` is `rest` under the home directory
/// `home`, which must be known; a path that is then not absolute is taken from the working
/// directory `cwd`, which must then have been read.
pub fn absolute_path(value: &str, home: Option<PathBuf>, cwd: Result<PathBuf, String>) -> (r: Result<PathBuf, String>)
    ensures
        home_rest(value@) is Some && home is None ==> path_error(r) == Some(no_home_text()),
        !(home_rest(value@) is Some && home is None) ==> match cwd {
            Ok(_) => r is Ok,
            Err(e) => r is Ok || path_error(r) == Some(no_cwd_text(e@)),
        },
{
    let cs = chars_of(value);
    proof {
        reveal_strlit("~/");
    }
    let path = if has_prefix(cs.as_slice(), "~/") {
        match home {
            None => {
                return Err(String::from_str("cannot expand '~': HOME is not set"));
            },
            Some(dir) => {
                let rest = sub_chars(cs.as_slice(), 2, cs.len());
                let rest_text = string_of(rest.as_slice());
                join_path(&dir, &path_from(rest_text.as_str()))
            },
        }
    } else {
        path_from(value)
    };
    let is_absolute = is_absolute_path(&path);
    anchored(path, is_absolute, cwd)
}

} // verus!
