//! Choosing the project's Julia version with Juliaup.
use vstd::prelude::*;

use crate::cli::err_text;
use crate::julia::{exit_suffix, ArgModel, ProcessExit, ProgramArg};
use crate::text::{chars_of, control, extend, extend_str, is_control_char, is_white_space, signed_decimal_chars, string_of, white_space};

verus! {

/// A channel name that Juliaup can be given: not empty, with no white space or control
/// characters.
pub open spec fn channel_ok(channel: Seq<char>) -> bool {
    &&& channel.len() > 0
    &&& forall|i: int| 0 <= i < channel.len() ==> !is_white_space(#[trigger] channel[i]) && !is_control_char(channel[i])
}

/// Whether `channel` can be handed to Juliaup, and the message when it cannot.
pub open spec fn channel_check(channel: Seq<char>) -> Result<(), Seq<char>> {
    if channel_ok(channel) {
        Ok(())
    } else {
        Err("invalid Julia channel '"@ + channel + "'"@)
    }
}

/// Checks a Julia channel name (such as `release` or `1.12`).
pub fn validate_channel(channel: &str) -> (r: Result<(), String>)
    ensures
        err_text(r) == channel_check(channel@),
{
    let cs = chars_of(channel);
    let mut ok = cs.len() > 0;
    let mut i: usize = 0;
    while i < cs.len()
        invariant
            cs@ == channel@,
            i <= cs@.len(),
            ok == (cs@.len() > 0 && forall|j: int| 0 <= j < i ==> !is_white_space(#[trigger] cs@[j]) && !is_control_char(cs@[j])),
        decreases cs@.len() - i,
    {
        if white_space(cs[i]) || control(cs[i]) {
            ok = false;
        }
        i = i + 1;
    }
    if ok {
        Ok(())
    } else {
        let mut m = chars_of("invalid Julia channel '");
        extend(&mut m, cs.as_slice());
        extend_str(&mut m, "'");
        Err(string_of(m.as_slice()))
    }
}

/// The two Juliaup commands that select `channel` for the project at `project`: install
/// the channel, then make it the project's override.
pub open spec fn select_spec<R>(project: R, channel: Seq<char>) -> Result<(Seq<ArgModel<R>>, Seq<ArgModel<R>>), Seq<char>> {
    match channel_check(channel) {
        Err(e) => Err(e),
        Ok(_) => Ok((
            seq![ArgModel::<R>::Text("add"@), ArgModel::<R>::Text(channel)],
            seq![
                ArgModel::<R>::Text("override"@),
                ArgModel::<R>::Text("set"@),
                ArgModel::<R>::Text("--path"@),
                ArgModel::<R>::Raw(project),
                ArgModel::<R>::Text(channel),
            ],
        )),
    }
}

/// The two argument lists or the error, mathematically.
pub open spec fn select_result<R>(r: Result<(Vec<ProgramArg<R>>, Vec<ProgramArg<R>>), String>) -> Result<(Seq<ArgModel<R>>, Seq<ArgModel<R>>), Seq<char>> {
    match r {
        Ok((a, b)) => Ok((a@.map_values(|x: ProgramArg<R>| x.model()), b@.map_values(|x: ProgramArg<R>| x.model()))),
        Err(e) => Err(e@),
    }
}

fn text(s: &str) -> (r: String)
    ensures
        r@ == s@,
{
    String::from_str(s)
}

/// The Juliaup arguments that install `channel` and set it for the project at `project`,
/// or why the channel is refused.
pub fn select<R>(project: R, channel: &str) -> (r: Result<(Vec<ProgramArg<R>>, Vec<ProgramArg<R>>), String>)
    ensures
        select_result(r) == select_spec(project, channel@),
{
    match validate_channel(channel) {
        Err(e) => {
            return Err(e);
        },
        Ok(_) => {},
    }
    let mut add: Vec<ProgramArg<R>> = Vec::new();
    add.push(ProgramArg::Text(text("add")));
    add.push(ProgramArg::Text(text(channel)));
    let mut set: Vec<ProgramArg<R>> = Vec::new();
    set.push(ProgramArg::Text(text("override")));
    set.push(ProgramArg::Text(text("set")));
    set.push(ProgramArg::Text(text("--path")));
    set.push(ProgramArg::Raw(project));
    set.push(ProgramArg::Text(text(channel)));
    let ghost expected = select_spec(project, channel@);
    assert(add@.map_values(|x: ProgramArg<R>| x.model()) == expected->Ok_0.0);
    assert(set@.map_values(|x: ProgramArg<R>| x.model()) == expected->Ok_0.1);
    Ok((add, set))
}

/// What a finished run of Juliaup amounts to.
pub open spec fn juliaup_result(description: Seq<char>, exit: ProcessExit) -> Result<(), Seq<char>> {
    if exit.success {
        Ok(())
    } else {
        Err("Juliaup failed while "@ + description + exit_suffix(exit.code))
    }
}

/// The outcome of a run of Juliaup that exited as `exit`, while doing `description`.
pub fn juliaup_status(description: &str, exit: &ProcessExit) -> (r: Result<(), String>)
    ensures
        err_text(r) == juliaup_result(description@, *exit),
{
    if exit.success {
        return Ok(());
    }
    let mut m = chars_of("Juliaup failed while ");
    extend_str(&mut m, description);
    let ghost head = m@;
    match exit.code {
        Some(c) => {
            extend_str(&mut m, " (exit code ");
            let digits = signed_decimal_chars(c);
            extend(&mut m, digits.as_slice());
            extend_str(&mut m, ")");
            assert(m@ == head + exit_suffix(exit.code));
        },
        None => {
            assert(m@ == head + exit_suffix(exit.code));
        },
    }
    Err(string_of(m.as_slice()))
}

/// The message when Juliaup cannot be started.
pub open spec fn juliaup_start_text(not_found: bool, error: Seq<char>) -> Seq<char> {
    if not_found {
        "Juliaup was not found; install it from https://julialang.org/install/ or set JPM_JULIAUP"@
    } else {
        "could not start Juliaup: "@ + error
    }
}

/// Why Juliaup could not be started: it was not found, or `error` happened.
pub fn juliaup_start_error(not_found: bool, error: &str) -> (r: String)
    ensures
        r@ == juliaup_start_text(not_found, error@),
{
    if not_found {
        text("Juliaup was not found; install it from https://julialang.org/install/ or set JPM_JULIAUP")
    } else {
        let mut m = chars_of("could not start Juliaup: ");
        extend_str(&mut m, error);
        string_of(m.as_slice())
    }
}

} // verus!
