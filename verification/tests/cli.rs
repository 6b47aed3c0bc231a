use jpm::cli::{help, parse, parse_test_args, remove_flag, require_packages, Command, Config, RawArg};

fn raw(arg: &str) -> RawArg<String> {
    RawArg { text: arg.to_owned(), is_utf8: true, raw: arg.to_owned() }
}

fn parse_str(args: &[&str]) -> Result<Config<String>, String> {
    parse(args.iter().map(|arg| raw(arg)).collect(), "julia".to_owned(), None)
}

#[test]
fn parses_global_options_and_add() {
    let config = parse_str(&[
        "--julia",
        "/opt/julia",
        "--project",
        "demo",
        "--dry-run",
        "add",
        "--dev",
        "../Local",
    ])
    .unwrap();

    assert_eq!(config.julia, "/opt/julia");
    assert_eq!(config.project, Some("demo".to_owned()));
    assert!(config.dry_run);
    assert_eq!(
        config.command,
        Command::Add {
            packages: vec!["../Local".to_owned()],
            develop: true
        }
    );
}

#[test]
fn aliases_are_supported() {
    assert_eq!(
        parse_str(&["rm", "Example"]).unwrap().command,
        Command::Remove {
            packages: vec!["Example".to_owned()]
        }
    );
    assert_eq!(parse_str(&["st"]).unwrap().command, Command::Status);
}

#[test]
fn package_commands_require_arguments() {
    assert_eq!(parse_str(&["add"]).unwrap_err(), "usage: jpm add <PACKAGE...>");
}

#[test]
fn parses_new_and_doctor() {
    assert_eq!(
        parse_str(&["new", "DemoPackage"]).unwrap().command,
        Command::New {
            path: "DemoPackage".to_owned()
        }
    );
    assert_eq!(parse_str(&["doctor"]).unwrap().command, Command::Doctor);
    assert_eq!(parse_str(&["new"]).unwrap_err(), "usage: jpm new <PACKAGE_PATH>");
}

#[test]
fn parses_dependency_insight_commands() {
    assert_eq!(parse_str(&["outdated"]).unwrap().command, Command::Outdated);
    assert_eq!(parse_str(&["tree"]).unwrap().command, Command::Tree);
    assert_eq!(
        parse_str(&["why", "Compat"]).unwrap().command,
        Command::Why {
            package: "Compat".to_owned()
        }
    );
    assert_eq!(parse_str(&["why"]).unwrap_err(), "usage: jpm why <PACKAGE>");
}

#[test]
fn parses_project_workflow_commands() {
    assert_eq!(
        parse_str(&["use", "1.12"]).unwrap().command,
        Command::Use {
            channel: "1.12".to_owned()
        }
    );
    assert_eq!(
        parse_str(&["test", "--coverage", "--", "fast"]).unwrap().command,
        Command::Test {
            coverage: true,
            args: vec!["fast".to_owned()]
        }
    );
    assert_eq!(
        parse_str(&["fmt", "src", "test/runtests.jl"]).unwrap().command,
        Command::Fmt {
            paths: vec!["src".to_owned(), "test/runtests.jl".to_owned()]
        }
    );
}

#[test]
fn test_separator_preserves_test_arguments() {
    assert_eq!(
        parse_str(&["test", "--coverage", "--", "--coverage", "--fast"]).unwrap().command,
        Command::Test {
            coverage: true,
            args: vec!["--coverage".to_owned(), "--fast".to_owned()]
        }
    );
    assert_eq!(
        parse_str(&["test", "--unknown"]).unwrap_err(),
        "unknown option '--unknown' for 'test'; pass test arguments after '--'"
    );
}

#[test]
fn help_describes_core_workflow_text() {
    let text = help();
    assert!(text.contains("jpm [OPTIONS] <COMMAND>"));
    assert!(text.contains("instantiate"));
    assert_eq!(parse_str(&[]).unwrap().command, Command::Help);
    assert_eq!(parse_str(&["-h"]).unwrap().command, Command::Help);
    assert_eq!(parse_str(&["--version"]).unwrap().command, Command::Version);
}

#[test]
fn environment_settings_are_overridden_by_options() {
    let config = parse(vec![raw("status")], "env-julia".to_owned(), Some("env-project".to_owned())).unwrap();
    assert_eq!(config.julia, "env-julia");
    assert_eq!(config.project, Some("env-project".to_owned()));
    let config = parse(vec![raw("-p"), raw("other"), raw("status")], "j".to_owned(), Some("env".to_owned())).unwrap();
    assert_eq!(config.project, Some("other".to_owned()));
}

#[test]
fn option_errors() {
    assert_eq!(parse_str(&["--julia"]).unwrap_err(), "--julia requires an executable");
    assert_eq!(parse_str(&["--project"]).unwrap_err(), "--project requires a path");
    let err = parse_str(&["--bogus"]).unwrap_err();
    assert!(err.starts_with("unknown option '--bogus'\n\n"));
    assert!(err.ends_with(help()));
    let err = parse_str(&["frobnicate"]).unwrap_err();
    assert_eq!(err, format!("unknown command 'frobnicate'\n\n{}", help()));
    assert_eq!(parse_str(&["tree", "x"]).unwrap_err(), "unexpected argument 'x' for 'tree'");
    assert_eq!(parse_str(&["install", "x"]).unwrap_err(), "unexpected argument 'x' for 'instantiate'");
    assert_eq!(parse_str(&["init", "a", "b"]).unwrap_err(), "usage: jpm init [PATH]");
    assert_eq!(parse_str(&["run"]).unwrap_err(), "usage: jpm run <SCRIPT | JULIA_ARGS...>");
    assert_eq!(parse_str(&["run", "--"]).unwrap_err(), "usage: jpm run <SCRIPT | JULIA_ARGS...>");
}

#[test]
fn non_utf8_arguments() {
    let bad = RawArg { text: "\u{fffd}".to_owned(), is_utf8: false, raw: "bad".to_owned() };
    assert_eq!(
        parse(vec![bad], "j".to_owned(), None).unwrap_err(),
        "command-line options must be valid UTF-8"
    );
    let bad = RawArg { text: "\u{fffd}".to_owned(), is_utf8: false, raw: "bad".to_owned() };
    assert_eq!(
        parse(vec![raw("add"), bad], "j".to_owned(), None).unwrap_err(),
        "package specifications must be valid UTF-8"
    );
    let bad = RawArg { text: "\u{fffd}".to_owned(), is_utf8: false, raw: "bad".to_owned() };
    let config = parse(vec![raw("run"), raw("--"), bad], "j".to_owned(), None).unwrap();
    assert_eq!(config.command, Command::Run { args: vec!["bad".to_owned()] });
}

#[test]
fn run_keeps_its_arguments() {
    assert_eq!(
        parse_str(&["run", "--", "--", "x"]).unwrap().command,
        Command::Run { args: vec!["--".to_owned(), "x".to_owned()] }
    );
    assert_eq!(
        parse_str(&["--dry-run", "run", "script.jl", "--fast"]).unwrap().command,
        Command::Run { args: vec!["script.jl".to_owned(), "--fast".to_owned()] }
    );
}

#[test]
fn other_aliases() {
    assert_eq!(parse_str(&["up"]).unwrap().command, Command::Update { packages: vec![] });
    assert_eq!(parse_str(&["ls"]).unwrap().command, Command::Status);
    assert_eq!(parse_str(&["list"]).unwrap().command, Command::Status);
    assert_eq!(parse_str(&["format", "a"]).unwrap().command, Command::Fmt { paths: vec!["a".to_owned()] });
    assert_eq!(parse_str(&["install"]).unwrap().command, Command::Instantiate);
    assert_eq!(parse_str(&["init"]).unwrap().command, Command::Init { path: None });
    assert_eq!(parse_str(&["init", "dir"]).unwrap().command, Command::Init { path: Some("dir".to_owned()) });
}

#[test]
fn flags_and_test_arguments() {
    let mut values = vec!["a".to_owned(), "--dev".to_owned(), "b".to_owned(), "--dev".to_owned()];
    assert!(remove_flag(&mut values, "--dev"));
    assert_eq!(values, vec!["a".to_owned(), "b".to_owned(), "--dev".to_owned()]);
    let mut values = vec!["a".to_owned()];
    assert!(!remove_flag(&mut values, "--dev"));
    assert_eq!(values, vec!["a".to_owned()]);
    assert_eq!(require_packages("remove", &vec![]).unwrap_err(), "usage: jpm remove <PACKAGE...>");
    assert!(require_packages("remove", &vec!["x".to_owned()]).is_ok());
    assert_eq!(
        parse_test_args(vec!["a".to_owned(), "--coverage".to_owned()]).unwrap(),
        (true, vec!["a".to_owned()])
    );
    assert_eq!(
        parse_test_args(vec!["-x".to_owned()]).unwrap_err(),
        "unknown option '-x' for 'test'; pass test arguments after '--'"
    );
}
