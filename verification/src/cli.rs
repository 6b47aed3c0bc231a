//! The command line: global options, the command and its arguments.
use vstd::prelude::*;

use crate::text::{chars_of, has_prefix, starts_with, string_of, extend, extend_str, eq_str};

verus! {

/// The help text printed by `jpm --help`.
pub const HELP_TEXT: &'static str = "\
jpm - a fast, friendly interface to Julia's package manager

USAGE:
    jpm [OPTIONS] <COMMAND>

OPTIONS:
    -p, --project <PATH>   Use a specific Julia project
        --julia <PATH>     Julia executable (or set JPM_JULIA)
        --dry-run          Print the Julia command without running it
    -h, --help             Print help
    -V, --version          Print version

COMMANDS:
    init [PATH]            Create a Julia environment
    new <PACKAGE_PATH>     Generate a Julia package
    doctor                 Diagnose the local Julia environment
    use <JULIA_CHANNEL>    Select a Julia version with Juliaup
    test [--coverage]      Run project tests
    fmt [PATHS...]         Format Julia source with JuliaFormatter
    outdated               Show packages with available updates
    tree                   Show the dependency tree
    why <PACKAGE>           Explain why a package is installed
    add [--dev] <PKG...>   Add registry, URL, or local packages
    remove <PKG...>        Remove packages (alias: rm)
    update [PKG...]        Update all or selected packages (alias: up)
    instantiate            Install dependencies from the manifest
    resolve                Resolve project compatibility
    precompile             Precompile project dependencies
    status                 Show project dependencies (alias: st)
    gc                     Remove unused package artifacts
    run <ARGS...>          Run Julia in the project environment

PACKAGE SPECS:
    Example                Registry package
    Example@1.2            Registry package with a version constraint
    ./LocalPackage         Local package path
    https://host/repo.git  Git repository URL
";

/// The help text.
pub fn help() -> (r: &'static str)
    ensures
        r@ == HELP_TEXT@,
{
    HELP_TEXT
}


/// One command-line argument as the parser sees it: its text (with any byte that is not
/// UTF-8 shown as U+FFFD), whether it was valid UTF-8, and the argument itself, which is
/// handed on untouched where the command takes it as is.
pub struct RawArg<R> {
    pub text: String,
    pub is_utf8: bool,
    pub raw: R,
}

/// What `jpm` was asked to do, with the global options.
#[derive(Debug, Clone, PartialEq, Eq)]
pub struct Config<R> {
    pub julia: R,
    pub project: Option<R>,
    pub dry_run: bool,
    pub command: Command<R>,
}

/// A command and its arguments.
#[derive(Debug, Clone, PartialEq, Eq)]
pub enum Command<R> {
    Init { path: Option<String> },
    New { path: String },
    Doctor,
    Use { channel: String },
    Test { coverage: bool, args: Vec<String> },
    Fmt { paths: Vec<String> },
    Outdated,
    Tree,
    Why { package: String },
    Add { packages: Vec<String>, develop: bool },
    Remove { packages: Vec<String> },
    Update { packages: Vec<String> },
    Instantiate,
    Resolve,
    Precompile,
    Status,
    Gc,
    Run { args: Vec<R> },
    Help,
    Version,
}

/// A command, mathematically.
pub enum CommandModel<R> {
    Init { path: Option<Seq<char>> },
    New { path: Seq<char> },
    Doctor,
    Use { channel: Seq<char> },
    Test { coverage: bool, args: Seq<Seq<char>> },
    Fmt { paths: Seq<Seq<char>> },
    Outdated,
    Tree,
    Why { package: Seq<char> },
    Add { packages: Seq<Seq<char>>, develop: bool },
    Remove { packages: Seq<Seq<char>> },
    Update { packages: Seq<Seq<char>> },
    Instantiate,
    Resolve,
    Precompile,
    Status,
    Gc,
    Run { args: Seq<R> },
    Help,
    Version,
}

/// The global options and the command, mathematically.
pub struct ConfigModel<R> {
    pub julia: R,
    pub project: Option<R>,
    pub dry_run: bool,
    pub command: CommandModel<R>,
}

/// The texts of a vector of strings.
pub open spec fn texts(v: Seq<String>) -> Seq<Seq<char>> {
    v.map_values(|s: String| s@)
}

/// An optional string as characters.
pub open spec fn opt_text(o: Option<String>) -> Option<Seq<char>> {
    match o {
        Some(s) => Some(s@),
        None => None,
    }
}

impl<R> Command<R> {
    /// The command, mathematically.
    pub open spec fn model(self) -> CommandModel<R> {
        match self {
            Command::Init { path } => CommandModel::Init { path: opt_text(path) },
            Command::New { path } => CommandModel::New { path: path@ },
            Command::Doctor => CommandModel::Doctor,
            Command::Use { channel } => CommandModel::Use { channel: channel@ },
            Command::Test { coverage, args } => CommandModel::Test { coverage, args: texts(args@) },
            Command::Fmt { paths } => CommandModel::Fmt { paths: texts(paths@) },
            Command::Outdated => CommandModel::Outdated,
            Command::Tree => CommandModel::Tree,
            Command::Why { package } => CommandModel::Why { package: package@ },
            Command::Add { packages, develop } => CommandModel::Add { packages: texts(packages@), develop },
            Command::Remove { packages } => CommandModel::Remove { packages: texts(packages@) },
            Command::Update { packages } => CommandModel::Update { packages: texts(packages@) },
            Command::Instantiate => CommandModel::Instantiate,
            Command::Resolve => CommandModel::Resolve,
            Command::Precompile => CommandModel::Precompile,
            Command::Status => CommandModel::Status,
            Command::Gc => CommandModel::Gc,
            Command::Run { args } => CommandModel::Run { args: args@ },
            Command::Help => CommandModel::Help,
            Command::Version => CommandModel::Version,
        }
    }
}

impl<R> Config<R> {
    /// The options and command, mathematically.
    pub open spec fn model(self) -> ConfigModel<R> {
        ConfigModel { julia: self.julia, project: self.project, dry_run: self.dry_run, command: self.command.model() }
    }
}

// ---------------------------------------------------------------------------
// The grammar
// ---------------------------------------------------------------------------

/// The texts of the arguments, if all of them are UTF-8.
pub open spec fn utf8_texts<R>(rest: Seq<RawArg<R>>) -> Result<Seq<Seq<char>>, Seq<char>>
    decreases rest.len(),
{
    if rest.len() == 0 {
        Ok(Seq::empty())
    } else {
        match utf8_texts(rest.drop_last()) {
            Err(e) => Err(e),
            Ok(t) => if rest.last().is_utf8 {
                Ok(t.push(rest.last().text@))
            } else {
                Err("package specifications must be valid UTF-8"@)
            },
        }
    }
}

/// A package command given no packages.
pub open spec fn packages_required(name: Seq<char>, packages: Seq<Seq<char>>) -> Result<(), Seq<char>> {
    if packages.len() == 0 {
        Err("usage: jpm "@ + name + " <PACKAGE...>"@)
    } else {
        Ok(())
    }
}

/// Position of the first `flag` among `values`, or -1.
pub open spec fn flag_position(values: Seq<Seq<char>>, flag: Seq<char>) -> int
    decreases values.len(),
{
    if values.len() == 0 {
        -1
    } else {
        let f = flag_position(values.drop_last(), flag);
        if f >= 0 {
            f
        } else if values.last() == flag {
            values.len() - 1
        } else {
            -1
        }
    }
}

/// `values` without the first `flag`, and whether there was one.
pub open spec fn without_flag(values: Seq<Seq<char>>, flag: Seq<char>) -> (Seq<Seq<char>>, bool) {
    let i = flag_position(values, flag);
    if i >= 0 {
        (values.remove(i), true)
    } else {
        (values, false)
    }
}

/// Reading the arguments of `test`: state (coverage requested, after `--`, arguments so far).
pub open spec fn test_state(values: Seq<Seq<char>>) -> Result<(bool, bool, Seq<Seq<char>>), Seq<char>>
    decreases values.len(),
{
    if values.len() == 0 {
        Ok((false, false, Seq::empty()))
    } else {
        match test_state(values.drop_last()) {
            Err(e) => Err(e),
            Ok(st) => {
                let v = values.last();
                if st.1 {
                    Ok((st.0, st.1, st.2.push(v)))
                } else if v == "--"@ {
                    Ok((st.0, true, st.2))
                } else if v == "--coverage"@ {
                    Ok((true, st.1, st.2))
                } else if starts_with(v, "-"@) {
                    Err("unknown option '"@ + v + "' for 'test'; pass test arguments after '--'"@)
                } else {
                    Ok((st.0, st.1, st.2.push(v)))
                }
            },
        }
    }
}

/// The arguments of `test`: whether coverage was requested, and what is passed on.
pub open spec fn test_arguments(values: Seq<Seq<char>>) -> Result<(bool, Seq<Seq<char>>), Seq<char>> {
    match test_state(values) {
        Err(e) => Err(e),
        Ok(st) => Ok((st.0, st.2)),
    }
}

/// The arguments of `run`: all of them, without one leading `--`.
pub open spec fn run_arguments<R>(rest: Seq<RawArg<R>>) -> Seq<R> {
    let all = rest.map_values(|a: RawArg<R>| a.raw);
    if rest.len() > 0 && rest[0].is_utf8 && rest[0].text@ == "--"@ {
        all.drop_first()
    } else {
        all
    }
}

/// The message for a word that is neither an option nor a command.
pub open spec fn unknown_word(word: Seq<char>) -> Seq<char> {
    if starts_with(word, "-"@) {
        "unknown option '"@ + word + "'\n\n"@ + HELP_TEXT@
    } else {
        "unknown command '"@ + word + "'\n\n"@ + HELP_TEXT@
    }
}

/// A command that takes no arguments: `cmd`, unless `rest` holds one.
pub open spec fn bare<R>(name: Seq<char>, rest: Seq<RawArg<R>>, cmd: CommandModel<R>) -> Result<CommandModel<R>, Seq<char>> {
    if rest.len() > 0 {
        Err("unexpected argument '"@ + rest[0].text@ + "' for '"@ + name + "'"@)
    } else {
        Ok(cmd)
    }
}

/// The command named `word`, with the arguments that follow it.
pub open spec fn command_from<R>(word: Seq<char>, rest: Seq<RawArg<R>>) -> Result<CommandModel<R>, Seq<char>> {
    let strings = utf8_texts(rest);
    if word == "--help"@ || word == "-h"@ || word == "help"@ {
        Ok(CommandModel::Help)
    } else if word == "--version"@ || word == "-V"@ || word == "version"@ {
        Ok(CommandModel::Version)
    } else if word == "init"@ {
        match strings {
            Err(e) => Err(e),
            Ok(v) => if v.len() > 1 {
                Err("usage: jpm init [PATH]"@)
            } else {
                Ok(CommandModel::Init { path: if v.len() == 1 { Some(v[0]) } else { None } })
            },
        }
    } else if word == "new"@ {
        match strings {
            Err(e) => Err(e),
            Ok(v) => if v.len() != 1 {
                Err("usage: jpm new <PACKAGE_PATH>"@)
            } else {
                Ok(CommandModel::New { path: v[0] })
            },
        }
    } else if word == "doctor"@ {
        bare("doctor"@, rest, CommandModel::Doctor)
    } else if word == "use"@ {
        match strings {
            Err(e) => Err(e),
            Ok(v) => if v.len() != 1 {
                Err("usage: jpm use <JULIA_CHANNEL>"@)
            } else {
                Ok(CommandModel::Use { channel: v[0] })
            },
        }
    } else if word == "test"@ {
        match strings {
            Err(e) => Err(e),
            Ok(v) => match test_arguments(v) {
                Err(e) => Err(e),
                Ok(t) => Ok(CommandModel::Test { coverage: t.0, args: t.1 }),
            },
        }
    } else if word == "fmt"@ || word == "format"@ {
        match strings {
            Err(e) => Err(e),
            Ok(v) => Ok(CommandModel::Fmt { paths: v }),
        }
    } else if word == "outdated"@ {
        bare("outdated"@, rest, CommandModel::Outdated)
    } else if word == "tree"@ {
        bare("tree"@, rest, CommandModel::Tree)
    } else if word == "why"@ {
        match strings {
            Err(e) => Err(e),
            Ok(v) => if v.len() != 1 {
                Err("usage: jpm why <PACKAGE>"@)
            } else {
                Ok(CommandModel::Why { package: v[0] })
            },
        }
    } else if word == "add"@ {
        match strings {
            Err(e) => Err(e),
            Ok(v) => {
                let w = without_flag(v, "--dev"@);
                match packages_required("add"@, w.0) {
                    Err(e) => Err(e),
                    Ok(_) => Ok(CommandModel::Add { packages: w.0, develop: w.1 }),
                }
            },
        }
    } else if word == "remove"@ || word == "rm"@ {
        match strings {
            Err(e) => Err(e),
            Ok(v) => match packages_required("remove"@, v) {
                Err(e) => Err(e),
                Ok(_) => Ok(CommandModel::Remove { packages: v }),
            },
        }
    } else if word == "update"@ || word == "up"@ {
        match strings {
            Err(e) => Err(e),
            Ok(v) => Ok(CommandModel::Update { packages: v }),
        }
    } else if word == "instantiate"@ || word == "install"@ {
        bare("instantiate"@, rest, CommandModel::Instantiate)
    } else if word == "resolve"@ {
        bare("resolve"@, rest, CommandModel::Resolve)
    } else if word == "precompile"@ {
        bare("precompile"@, rest, CommandModel::Precompile)
    } else if word == "status"@ || word == "st"@ || word == "list"@ || word == "ls"@ {
        bare("status"@, rest, CommandModel::Status)
    } else if word == "gc"@ {
        bare("gc"@, rest, CommandModel::Gc)
    } else if word == "run"@ {
        let a = run_arguments(rest);
        if a.len() == 0 {
            Err("usage: jpm run <SCRIPT | JULIA_ARGS...>"@)
        } else {
            Ok(CommandModel::Run { args: a })
        }
    } else {
        Err(unknown_word(word))
    }
}

/// Reading the command line from position `i` on, with the global options read so far.
pub open spec fn parse_from<R>(
    args: Seq<RawArg<R>>,
    i: int,
    julia: R,
    project: Option<R>,
    dry_run: bool,
) -> Result<ConfigModel<R>, Seq<char>>
    decreases args.len() - i,
{
    if i < 0 || i >= args.len() {
        Ok(ConfigModel { julia, project, dry_run, command: CommandModel::Help })
    } else if !args[i].is_utf8 {
        Err("command-line options must be valid UTF-8"@)
    } else {
        let word = args[i].text@;
        if word == "--julia"@ {
            if i + 1 >= args.len() {
                Err("--julia requires an executable"@)
            } else {
                parse_from(args, i + 2, args[i + 1].raw, project, dry_run)
            }
        } else if word == "--project"@ || word == "-p"@ {
            if i + 1 >= args.len() {
                Err("--project requires a path"@)
            } else {
                parse_from(args, i + 2, julia, Some(args[i + 1].raw), dry_run)
            }
        } else if word == "--dry-run"@ {
            parse_from(args, i + 1, julia, project, true)
        } else {
            match command_from(word, args.skip(i + 1)) {
                Err(e) => Err(e),
                Ok(c) => Ok(ConfigModel { julia, project, dry_run, command: c }),
            }
        }
    }
}

/// The command line read from the start: `julia` and `project` are the settings from the
/// environment (`JPM_JULIA`, else `julia`; `JPM_PROJECT`), which the options override.
pub open spec fn parse_spec<R>(args: Seq<RawArg<R>>, julia: R, project: Option<R>) -> Result<ConfigModel<R>, Seq<char>> {
    parse_from(args, 0, julia, project, false)
}


// ---------------------------------------------------------------------------
// Reading the command line
// ---------------------------------------------------------------------------

/// A result whose error message is seen as characters.
pub open spec fn err_text<T>(r: Result<T, String>) -> Result<T, Seq<char>> {
    match r {
        Ok(t) => Ok(t),
        Err(e) => Err(e@),
    }
}

/// A command or error, mathematically.
pub open spec fn command_result<R>(r: Result<Command<R>, String>) -> Result<CommandModel<R>, Seq<char>> {
    match r {
        Ok(c) => Ok(c.model()),
        Err(e) => Err(e@),
    }
}

/// A configuration or error, mathematically.
pub open spec fn config_result<R>(r: Result<Config<R>, String>) -> Result<ConfigModel<R>, Seq<char>> {
    match r {
        Ok(c) => Ok(c.model()),
        Err(e) => Err(e@),
    }
}

/// A `String` holding the characters.
fn owned(v: &Vec<char>) -> (r: String)
    ensures
        r@ == v@,
{
    string_of(v.as_slice())
}

/// The literal as a `String`.
fn lit(s: &str) -> (r: String)
    ensures
        r@ == s@,
{
    String::from_str(s)
}

proof fn lemma_utf8_texts<R>(rest: Seq<RawArg<R>>)
    ensures
        utf8_texts(rest) is Err ==> utf8_texts(rest) == Err::<Seq<Seq<char>>, Seq<char>>("package specifications must be valid UTF-8"@),
    decreases rest.len(),
{
    if rest.len() > 0 {
        lemma_utf8_texts(rest.drop_last());
    }
}

proof fn lemma_utf8_texts_prefix<R>(rest: Seq<RawArg<R>>, n: int)
    requires
        0 <= n <= rest.len(),
        utf8_texts(rest.take(n)) is Err,
    ensures
        utf8_texts(rest) is Err,
    decreases rest.len() - n,
{
    if n < rest.len() {
        assert(rest.take(n + 1).drop_last() == rest.take(n));
        lemma_utf8_texts_prefix(rest, n + 1);
    } else {
        assert(rest.take(n) == rest);
    }
}

/// The arguments as strings, if all are UTF-8.
fn collect_strings<R>(rest: Vec<RawArg<R>>) -> (r: Result<Vec<String>, String>)
    ensures
        match r {
            Ok(v) => utf8_texts(rest@) == Ok::<Seq<Seq<char>>, Seq<char>>(texts(v@)),
            Err(e) => utf8_texts(rest@) == Err::<Seq<Seq<char>>, Seq<char>>(e@),
        },
{
    let ghost all = rest@;
    let mut remaining = rest;
    let mut out: Vec<String> = Vec::new();
    let ghost mut i: int = 0;
    assert(all.take(0) == Seq::<RawArg<R>>::empty());
    assert(texts(out@) == Seq::<Seq<char>>::empty());
    while remaining.len() > 0
        invariant
            all == rest@,
            0 <= i <= all.len(),
            remaining@ == all.skip(i),
            utf8_texts(all.take(i)) == Ok::<Seq<Seq<char>>, Seq<char>>(texts(out@)),
        decreases remaining@.len(),
    {
        let a = remaining.remove(0);
        proof {
            assert(all.take(i + 1).drop_last() == all.take(i));
            assert(all.take(i + 1).last() == all[i]);
            assert(a == all[i]);
            assert(remaining@ == all.skip(i + 1));
        }
        if !a.is_utf8 {
            proof {
                assert(utf8_texts(all.take(i + 1)) is Err);
                lemma_utf8_texts_prefix(all, i + 1);
                lemma_utf8_texts(all);
                assert(utf8_texts(all) is Err);
            }
            return Err(lit("package specifications must be valid UTF-8"));
        }
        let ghost before = out@;
        out.push(a.text);
        proof {
            assert(texts(out@) == texts(before).push(all[i].text@));
            i = i + 1;
        }
    }
    assert(all.take(i) == all);
    Ok(out)
}

/// Refuses any argument after a command that takes none.
fn ensure_empty<R>(command: &str, rest: &Vec<RawArg<R>>) -> (r: Result<(), String>)
    ensures
        match r {
            Ok(_) => rest@.len() == 0,
            Err(e) => rest@.len() > 0 && e@ == "unexpected argument '"@ + rest@[0].text@ + "' for '"@ + command@ + "'"@,
        },
{
    if rest.len() > 0 {
        let mut m = chars_of("unexpected argument '");
        let t = chars_of(rest[0].text.as_str());
        extend(&mut m, t.as_slice());
        extend_str(&mut m, "' for '");
        extend_str(&mut m, command);
        extend_str(&mut m, "'");
        return Err(owned(&m));
    }
    Ok(())
}

/// Refuses a package command given no packages.
pub fn require_packages(command: &str, packages: &Vec<String>) -> (r: Result<(), String>)
    ensures
        err_text(r) == packages_required(command@, texts(packages@)),
{
    if packages.len() == 0 {
        let mut m = chars_of("usage: jpm ");
        extend_str(&mut m, command);
        extend_str(&mut m, " <PACKAGE...>");
        Err(owned(&m))
    } else {
        Ok(())
    }
}

proof fn lemma_flag_position(values: Seq<Seq<char>>, flag: Seq<char>, n: int)
    requires
        0 <= n <= values.len(),
        flag_position(values.take(n), flag) >= 0,
    ensures
        flag_position(values, flag) == flag_position(values.take(n), flag),
    decreases values.len() - n,
{
    if n < values.len() {
        assert(values.take(n + 1).drop_last() == values.take(n));
        lemma_flag_position(values, flag, n + 1);
    } else {
        assert(values.take(n) == values);
    }
}

/// Removes the first occurrence of `flag` from `values`; says whether there was one.
pub fn remove_flag(values: &mut Vec<String>, flag: &str) -> (r: bool)
    ensures
        (texts(final(values)@), r) == without_flag(texts(old(values)@), flag@),
{
    let ghost tv = texts(values@);
    let mut i: usize = 0;
    while i < values.len()
        invariant
            tv == texts(values@),
            values@ == old(values)@,
            i <= tv.len(),
            flag_position(tv.take(i as int), flag@) == -1,
        decreases tv.len() - i,
    {
        assert(tv.take(i + 1).drop_last() == tv.take(i as int));
        assert(tv[i as int] == values@[i as int]@);
        let c = chars_of(values[i].as_str());
        if eq_str(c.as_slice(), flag) {
            proof {
                lemma_flag_position(tv, flag@, i + 1);
                assert(tv.take(i + 1).last() == tv[i as int]);
                assert(flag_position(tv, flag@) == i);
            }
            let ghost before = values@;
            values.remove(i);
            assert(texts(values@) == tv.remove(i as int));
            return true;
        }
        i = i + 1;
    }
    assert(tv.take(tv.len() as int) == tv);
    false
}

proof fn lemma_test_state_prefix(values: Seq<Seq<char>>, n: int)
    requires
        0 <= n <= values.len(),
        test_state(values.take(n)) is Err,
    ensures
        test_state(values) == test_state(values.take(n)),
    decreases values.len() - n,
{
    if n < values.len() {
        assert(values.take(n + 1).drop_last() == values.take(n));
        lemma_test_state_prefix(values, n + 1);
    } else {
        assert(values.take(n) == values);
    }
}

/// Reads the arguments of `test`: `--coverage` asks for coverage, `--` ends the options,
/// and any other option before `--` is refused.
pub fn parse_test_args(values: Vec<String>) -> (r: Result<(bool, Vec<String>), String>)
    ensures
        match r {
            Ok((coverage, args)) => test_arguments(texts(values@)) == Ok::<(bool, Seq<Seq<char>>), Seq<char>>((coverage, texts(args@))),
            Err(e) => test_arguments(texts(values@)) == Err::<(bool, Seq<Seq<char>>), Seq<char>>(e@),
        },
{
    let ghost tv = texts(values@);
    let mut remaining = values;
    let mut coverage = false;
    let mut passthrough = false;
    let mut args: Vec<String> = Vec::new();
    let ghost mut i: int = 0;
    assert(tv.take(0) == Seq::<Seq<char>>::empty());
    assert(texts(args@) == Seq::<Seq<char>>::empty());
    while remaining.len() > 0
        invariant
            tv == texts(values@),
            0 <= i <= tv.len(),
            texts(remaining@) == tv.skip(i),
            test_state(tv.take(i)) == Ok::<(bool, bool, Seq<Seq<char>>), Seq<char>>((coverage, passthrough, texts(args@))),
        decreases remaining@.len(),
    {
        assert(texts(remaining@).len() == remaining@.len());
        let ghost old_rem = remaining@;
        let value = remaining.remove(0);
        proof {
            assert(tv.take(i + 1).drop_last() == tv.take(i));
            assert(tv.take(i + 1).last() == tv[i]);
            assert(tv.skip(i)[0] == tv[i]);
            assert(value@ == tv[i]);
            assert forall|j: int| 0 <= j < remaining@.len() implies #[trigger] texts(remaining@)[j] == tv.skip(i + 1)[j] by {
                assert(remaining@[j] == old_rem[j + 1]);
                assert(texts(old_rem)[j + 1] == tv.skip(i)[j + 1]);
            }
            assert(texts(remaining@) == tv.skip(i + 1));
        }
        let ghost before = args@;
        let v = chars_of(value.as_str());
        if passthrough {
            args.push(value);
        } else if eq_str(v.as_slice(), "--") {
            passthrough = true;
        } else if eq_str(v.as_slice(), "--coverage") {
            coverage = true;
        } else if has_prefix(v.as_slice(), "-") {
            proof {
                lemma_test_state_prefix(tv, i + 1);
            }
            let mut m = chars_of("unknown option '");
            extend(&mut m, v.as_slice());
            extend_str(&mut m, "' for 'test'; pass test arguments after '--'");
            return Err(owned(&m));
        } else {
            args.push(value);
        }
        proof {
            if args@.len() > before.len() {
                assert(texts(args@) == texts(before).push(tv[i]));
            }
            i = i + 1;
        }
    }
    assert(tv.take(i) == tv);
    Ok((coverage, args))
}


/// The arguments of `run`, without one leading `--`.
fn run_args<R>(rest: Vec<RawArg<R>>) -> (r: Vec<R>)
    ensures
        r@ == run_arguments(rest@),
{
    let ghost all = rest@;
    let mut remaining = rest;
    let mut out: Vec<R> = Vec::new();
    let mut first = true;
    let ghost mut i: int = 0;
    let ghost raws = all.map_values(|a: RawArg<R>| a.raw);
    let ghost skip = if all.len() > 0 && all[0].is_utf8 && all[0].text@ == "--"@ { 1int } else { 0int };
    while remaining.len() > 0
        invariant
            all == rest@,
            raws == all.map_values(|a: RawArg<R>| a.raw),
            skip == (if all.len() > 0 && all[0].is_utf8 && all[0].text@ == "--"@ { 1int } else { 0int }),
            0 <= i <= all.len(),
            first == (i == 0),
            remaining@ == all.skip(i),
            out@ == raws.subrange(if i == 0 { 0 } else { skip }, i),
        decreases remaining@.len(),
    {
        let a = remaining.remove(0);
        assert(a == all[i]);
        let ghost before = out@;
        let RawArg { text, is_utf8, raw } = a;
        if first && is_utf8 && eq_str(chars_of(text.as_str()).as_slice(), "--") {
            assert(skip == 1);
        } else {
            out.push(raw);
            proof {
                if i == 0 {
                    assert(skip == 0);
                }
                assert(raws[i] == raw);
            }
        }
        first = false;
        proof {
            i = i + 1;
            assert(remaining@ == all.skip(i));
        }
    }
    proof {
        if all.len() > 0 {
            assert(i == all.len());
            assert(out@ == raws.subrange(skip, all.len() as int));
            if skip == 1 {
                assert(raws.drop_first() == raws.subrange(1, all.len() as int));
            } else {
                assert(raws == raws.subrange(0, all.len() as int));
            }
        } else {
            assert(raws.len() == 0);
        }
    }
    out
}

/// Reads the command named `word` and its arguments.
fn command_of<R>(word: &Vec<char>, rest: Vec<RawArg<R>>) -> (r: Result<Command<R>, String>)
    ensures
        command_result(r) == command_from(word@, rest@),
{
    let w = word.as_slice();
    if eq_str(w, "--help") || eq_str(w, "-h") || eq_str(w, "help") {
        Ok(Command::Help)
    } else if eq_str(w, "--version") || eq_str(w, "-V") || eq_str(w, "version") {
        Ok(Command::Version)
    } else if eq_str(w, "init") {
        let v = collect_strings(rest)?;
        if v.len() > 1 {
            return Err(lit("usage: jpm init [PATH]"));
        }
        let path = if v.len() == 1 {
            let mut v = v;
            Some(v.remove(0))
        } else {
            None
        };
        Ok(Command::Init { path })
    } else if eq_str(w, "new") {
        let mut v = collect_strings(rest)?;
        if v.len() != 1 {
            return Err(lit("usage: jpm new <PACKAGE_PATH>"));
        }
        Ok(Command::New { path: v.remove(0) })
    } else if eq_str(w, "doctor") {
        ensure_empty("doctor", &rest)?;
        Ok(Command::Doctor)
    } else if eq_str(w, "use") {
        let mut v = collect_strings(rest)?;
        if v.len() != 1 {
            return Err(lit("usage: jpm use <JULIA_CHANNEL>"));
        }
        Ok(Command::Use { channel: v.remove(0) })
    } else if eq_str(w, "test") {
        let v = collect_strings(rest)?;
        let (coverage, args) = parse_test_args(v)?;
        Ok(Command::Test { coverage, args })
    } else if eq_str(w, "fmt") || eq_str(w, "format") {
        let paths = collect_strings(rest)?;
        Ok(Command::Fmt { paths })
    } else if eq_str(w, "outdated") {
        ensure_empty("outdated", &rest)?;
        Ok(Command::Outdated)
    } else if eq_str(w, "tree") {
        ensure_empty("tree", &rest)?;
        Ok(Command::Tree)
    } else if eq_str(w, "why") {
        let mut v = collect_strings(rest)?;
        if v.len() != 1 {
            return Err(lit("usage: jpm why <PACKAGE>"));
        }
        Ok(Command::Why { package: v.remove(0) })
    } else if eq_str(w, "add") {
        let mut packages = collect_strings(rest)?;
        let develop = remove_flag(&mut packages, "--dev");
        require_packages("add", &packages)?;
        Ok(Command::Add { packages, develop })
    } else if eq_str(w, "remove") || eq_str(w, "rm") {
        let packages = collect_strings(rest)?;
        require_packages("remove", &packages)?;
        Ok(Command::Remove { packages })
    } else if eq_str(w, "update") || eq_str(w, "up") {
        let packages = collect_strings(rest)?;
        Ok(Command::Update { packages })
    } else if eq_str(w, "instantiate") || eq_str(w, "install") {
        ensure_empty("instantiate", &rest)?;
        Ok(Command::Instantiate)
    } else if eq_str(w, "resolve") {
        ensure_empty("resolve", &rest)?;
        Ok(Command::Resolve)
    } else if eq_str(w, "precompile") {
        ensure_empty("precompile", &rest)?;
        Ok(Command::Precompile)
    } else if eq_str(w, "status") || eq_str(w, "st") || eq_str(w, "list") || eq_str(w, "ls") {
        ensure_empty("status", &rest)?;
        Ok(Command::Status)
    } else if eq_str(w, "gc") {
        ensure_empty("gc", &rest)?;
        Ok(Command::Gc)
    } else if eq_str(w, "run") {
        let args = run_args(rest);
        if args.len() == 0 {
            return Err(lit("usage: jpm run <SCRIPT | JULIA_ARGS...>"));
        }
        Ok(Command::Run { args })
    } else {
        let mut m: Vec<char> = Vec::new();
        if has_prefix(w, "-") {
            extend_str(&mut m, "unknown option '");
        } else {
            extend_str(&mut m, "unknown command '");
        }
        extend(&mut m, w);
        extend_str(&mut m, "'\n\n");
        extend_str(&mut m, HELP_TEXT);
        Err(owned(&m))
    }
}

/// Reads the command line. `julia` and `project` are the settings taken from the
/// environment before any option: `JPM_JULIA` (else `julia`) and `JPM_PROJECT`.
pub fn parse<R>(args: Vec<RawArg<R>>, julia: R, project: Option<R>) -> (r: Result<Config<R>, String>)
    ensures
        config_result(r) == parse_spec(args@, julia, project),
{
    let ghost all = args@;
    let ghost julia0 = julia;
    let ghost project0 = project;
    let mut remaining = args;
    let mut exe = julia;
    let mut proj = project;
    let mut dry_run = false;
    let ghost mut i: int = 0;
    loop
        invariant
            all == args@,
            julia0 == julia,
            project0 == project,
            0 <= i <= all.len(),
            remaining@ == all.skip(i),
            parse_spec(all, julia0, project0) == parse_from(all, i, exe, proj, dry_run),
        decreases remaining@.len(),
    {
        if remaining.len() == 0 {
            return Ok(Config { julia: exe, project: proj, dry_run, command: Command::Help });
        }
        let a = remaining.remove(0);
        assert(a == all[i]);
        assert(remaining@ == all.skip(i + 1));
        if !a.is_utf8 {
            return Err(lit("command-line options must be valid UTF-8"));
        }
        let word = chars_of(a.text.as_str());
        if eq_str(word.as_slice(), "--julia") {
            if remaining.len() == 0 {
                return Err(lit("--julia requires an executable"));
            }
            let v = remaining.remove(0);
            assert(v == all[i + 1]);
            exe = v.raw;
            proof {
                i = i + 2;
                assert(remaining@ == all.skip(i));
            }
        } else if eq_str(word.as_slice(), "--project") || eq_str(word.as_slice(), "-p") {
            if remaining.len() == 0 {
                return Err(lit("--project requires a path"));
            }
            let v = remaining.remove(0);
            assert(v == all[i + 1]);
            proj = Some(v.raw);
            proof {
                i = i + 2;
                assert(remaining@ == all.skip(i));
            }
        } else if eq_str(word.as_slice(), "--dry-run") {
            dry_run = true;
            proof {
                i = i + 1;
            }
        } else {
            return match command_of(&word, remaining) {
                Ok(command) => Ok(Config { julia: exe, project: proj, dry_run, command }),
                Err(e) => Err(e),
            };
        }
    }
}


/// The texts of the arguments.
pub open spec fn arg_texts<R>(xs: Seq<RawArg<R>>) -> Seq<Seq<char>> {
    xs.map_values(|a: RawArg<R>| a.text@)
}

proof fn lemma_utf8_texts_all<R>(xs: Seq<RawArg<R>>)
    requires
        forall|i: int| 0 <= i < xs.len() ==> (#[trigger] xs[i]).is_utf8,
    ensures
        utf8_texts(xs) == Ok::<Seq<Seq<char>>, Seq<char>>(arg_texts(xs)),
    decreases xs.len(),
{
    if xs.len() > 0 {
        lemma_utf8_texts_all(xs.drop_last());
        assert(arg_texts(xs.drop_last()).push(xs.last().text@) == arg_texts(xs));
    } else {
        assert(arg_texts(xs) == Seq::<Seq<char>>::empty());
    }
}

/// `jpm update` (or `up`) updates exactly the packages named after it, in order; with
/// none named it updates them all.
pub proof fn lemma_update_packages<R>(cmd: RawArg<R>, xs: Seq<RawArg<R>>, julia: R, project: Option<R>)
    requires
        cmd.is_utf8,
        cmd.text@ == "update"@ || cmd.text@ == "up"@,
        forall|i: int| 0 <= i < xs.len() ==> (#[trigger] xs[i]).is_utf8,
    ensures
        parse_spec(seq![cmd] + xs, julia, project) == Ok::<ConfigModel<R>, Seq<char>>(
            ConfigModel { julia, project, dry_run: false, command: CommandModel::Update { packages: arg_texts(xs) } },
        ),
{
    reveal_strlit("--julia");
    reveal_strlit("--project");
    reveal_strlit("-p");
    reveal_strlit("--dry-run");
    reveal_strlit("--help");
    reveal_strlit("-h");
    reveal_strlit("help");
    reveal_strlit("--version");
    reveal_strlit("-V");
    reveal_strlit("version");
    reveal_strlit("init");
    reveal_strlit("new");
    reveal_strlit("doctor");
    reveal_strlit("use");
    reveal_strlit("test");
    reveal_strlit("fmt");
    reveal_strlit("format");
    reveal_strlit("outdated");
    reveal_strlit("tree");
    reveal_strlit("why");
    reveal_strlit("add");
    reveal_strlit("remove");
    reveal_strlit("rm");
    reveal_strlit("update");
    reveal_strlit("up");
    let args = seq![cmd] + xs;
    assert(args[0] == cmd);
    assert(args.skip(1) == xs);
    lemma_utf8_texts_all(xs);
    let word = cmd.text@;
    assert(word[0] == 'u' && word[1] == 'p');
    assert("--julia"@[0] != word[0]);
    assert("--project"@[0] != word[0]);
    assert("-p"@[0] != word[0]);
    assert("--dry-run"@[0] != word[0]);
    assert("--help"@[0] != word[0]);
    assert("-h"@[0] != word[0]);
    assert("help"@[0] != word[0]);
    assert("--version"@[0] != word[0]);
    assert("-V"@[0] != word[0]);
    assert("version"@[0] != word[0]);
    assert("init"@[0] != word[0]);
    assert("new"@[0] != word[0]);
    assert("doctor"@[0] != word[0]);
    assert("test"@[0] != word[0]);
    assert("fmt"@[0] != word[0]);
    assert("format"@[0] != word[0]);
    assert("outdated"@[0] != word[0]);
    assert("tree"@[0] != word[0]);
    assert("why"@[0] != word[0]);
    assert("add"@[0] != word[0]);
    assert("remove"@[0] != word[0]);
    assert("rm"@[0] != word[0]);
    assert("use"@[1] != word[1]);
    assert(command_from(word, xs) == Ok::<CommandModel<R>, Seq<char>>(CommandModel::Update { packages: arg_texts(xs) }));
    assert(parse_from(args, 0, julia, project, false) == Ok::<ConfigModel<R>, Seq<char>>(
        ConfigModel { julia, project, dry_run: false, command: CommandModel::Update { packages: arg_texts(xs) } },
    ));
}

} // verus!
