use jpm::cli::Command;
use jpm::julia::{
    base_args, capture, command_description, format_args, generate_invocation, graph_args, invocation, is_url,
    julia_string, looks_like_path, package_spec, package_specs, parse_probe, pkg_expression, probe_args,
    process_start_error, run_status, split_revision, split_version, string_vector, test_scaffold,
    valid_package_name, PackageLocation, Probe, ProcessExit, ProgramArg, GRAPH_SCRIPT, PROBE_SCRIPT, TEST_TARGET,
};

fn elsewhere() -> PackageLocation {
    PackageLocation { on_disk: false, absolute: Ok("/work/elsewhere".to_owned()) }
}

fn spec(package: &str) -> Result<String, String> {
    package_spec(package, &elsewhere())
}

#[test]
fn escapes_julia_strings() {
    assert_eq!(julia_string("A\"b\\c$d\n"), "\"A\\\"b\\\\c\\$d\\n\"");
}

#[test]
fn creates_registry_package_specs() {
    assert_eq!(spec("Example").unwrap(), "Pkg.PackageSpec(name=\"Example\")");
    assert_eq!(
        spec("Example@1.2").unwrap(),
        "Pkg.PackageSpec(name=\"Example\", version=\"1.2\")"
    );
}

#[test]
fn creates_git_package_specs() {
    assert_eq!(
        spec("https://example.test/Repo.jl.git#feature").unwrap(),
        "Pkg.PackageSpec(url=\"https://example.test/Repo.jl.git\", rev=\"feature\")"
    );
}

#[test]
fn escapes_untrusted_package_spec_fields() {
    assert_eq!(
        spec("Example@1.2\"; error($payload)\n#").unwrap(),
        "Pkg.PackageSpec(name=\"Example\", version=\"1.2\\\"; error(\\$payload)\\n#\")"
    );
    assert_eq!(
        spec("https://example.test/Repo.jl.git#feature\"; error($payload)").unwrap(),
        "Pkg.PackageSpec(url=\"https://example.test/Repo.jl.git\", rev=\"feature\\\"; error(\\$payload)\")"
    );
}

#[test]
fn rejects_invalid_names() {
    assert_eq!(spec("bad-name").unwrap_err(), "invalid Julia package name 'bad-name'");
}

#[test]
fn run_passes_arguments_directly_to_julia() {
    let command = Command::Run {
        args: vec!["script.jl".to_owned(), "--fast".to_owned()],
    };
    let (args, _) = invocation(command, "/tmp/demo", &Vec::new()).unwrap();
    assert_eq!(
        args,
        vec![
            ProgramArg::Text("--project=/tmp/demo".to_owned()),
            ProgramArg::Raw("script.jl".to_owned()),
            ProgramArg::Raw("--fast".to_owned())
        ]
    );
}

#[test]
fn parses_environment_probe() {
    let probe = parse_probe(
        "version\t1.12.6\nproject\t/tmp/Demo/Project.toml\ndepot\t/home/me/.julia\nregistries\t2\n",
    )
    .unwrap();

    assert_eq!(
        probe,
        Probe {
            version: "1.12.6".to_owned(),
            active_project: "/tmp/Demo/Project.toml".to_owned(),
            depot: "/home/me/.julia".to_owned(),
            registries: 2,
        }
    );
}

#[test]
fn rejects_incomplete_environment_probe() {
    assert_eq!(
        parse_probe("version\t1.12.6\n").unwrap_err(),
        "Julia probe did not report its active project"
    );
}

#[test]
fn builds_pkg_test_expression() {
    assert_eq!(
        pkg_expression(
            &Command::<String>::Test {
                coverage: true,
                args: vec!["fast".to_owned()]
            },
            &Vec::new()
        )
        .unwrap(),
        "import Pkg; Pkg.test(; coverage=true, test_args=String[\"fast\"])"
    );
}

#[test]
fn escapes_pkg_string_arguments() {
    assert_eq!(
        pkg_expression(
            &Command::<String>::Remove {
                packages: vec!["Example\"); error($payload)\n#".to_owned()]
            },
            &Vec::new()
        )
        .unwrap(),
        "import Pkg; Pkg.rm(String[\"Example\\\"); error(\\$payload)\\n#\"])"
    );
}

#[test]
fn escapes_every_special_character() {
    assert_eq!(julia_string(""), "\"\"");
    assert_eq!(julia_string("a\rb\tc"), "\"a\\rb\\tc\"");
    assert_eq!(julia_string("plain ünïcode"), "\"plain ünïcode\"");
}

#[test]
fn string_vectors_hold_escaped_literals() {
    assert_eq!(string_vector(&Vec::new()), "String[]");
    assert_eq!(
        string_vector(&vec!["a".to_owned(), "b\"c".to_owned()]),
        "String[\"a\", \"b\\\"c\"]"
    );
}

#[test]
fn recognises_urls_and_paths() {
    assert!(is_url("https://host/repo.git"));
    assert!(is_url("git@github.com:me/repo.git"));
    assert!(!is_url("Example"));
    assert!(looks_like_path(".", false));
    assert!(looks_like_path("..", false));
    assert!(looks_like_path("./Local", false));
    assert!(looks_like_path("../Local", false));
    assert!(looks_like_path("/abs/Local", false));
    assert!(looks_like_path("~/Local", false));
    assert!(looks_like_path("Local", true));
    assert!(!looks_like_path("Local", false));
}

#[test]
fn splits_versions_and_revisions() {
    assert_eq!(split_version("A@1@2"), ("A".to_owned(), Some("1@2".to_owned())));
    assert_eq!(split_version("A"), ("A".to_owned(), None));
    assert_eq!(split_revision("u#a#b"), ("u#a".to_owned(), Some("b".to_owned())));
    assert_eq!(split_revision("u"), ("u".to_owned(), None));
}

#[test]
fn checks_package_names() {
    assert!(valid_package_name("Example"));
    assert!(valid_package_name("_private2"));
    assert!(!valid_package_name("2fast"));
    assert!(!valid_package_name(""));
    assert!(!valid_package_name("bad-name"));
}

#[test]
fn package_spec_errors() {
    assert_eq!(spec("  ").unwrap_err(), "package specifications cannot be empty");
    assert_eq!(spec("Example@").unwrap_err(), "missing version after '@' in 'Example@'");
    let no_home = PackageLocation { on_disk: false, absolute: Err("cannot expand '~': HOME is not set".to_owned()) };
    assert_eq!(package_spec("~/pkg", &no_home).unwrap_err(), "cannot expand '~': HOME is not set");
}

#[test]
fn local_packages_use_absolute_paths() {
    let here = PackageLocation { on_disk: true, absolute: Ok("/work/My \"Pkg\"".to_owned()) };
    assert_eq!(
        package_spec("My \"Pkg\"", &here).unwrap(),
        "Pkg.PackageSpec(path=\"/work/My \\\"Pkg\\\"\")"
    );
    assert_eq!(
        spec("git@host:repo.git").unwrap(),
        "Pkg.PackageSpec(url=\"git@host:repo.git\")"
    );
}

#[test]
fn package_spec_lists_stop_at_the_first_error() {
    let packages = vec!["A".to_owned(), "B@2".to_owned()];
    let locations = vec![elsewhere(), elsewhere()];
    assert_eq!(
        package_specs(&packages, &locations).unwrap(),
        "[Pkg.PackageSpec(name=\"A\"), Pkg.PackageSpec(name=\"B\", version=\"2\")]"
    );
    let bad = vec!["A".to_owned(), "x-y".to_owned(), "".to_owned()];
    let locations = vec![elsewhere(), elsewhere(), elsewhere()];
    assert_eq!(package_specs(&bad, &locations).unwrap_err(), "invalid Julia package name 'x-y'");
}

#[test]
fn pkg_expressions_for_each_command() {
    let none: Vec<PackageLocation> = Vec::new();
    let add = Command::<String>::Add { packages: vec!["A".to_owned()], develop: true };
    assert_eq!(
        pkg_expression(&add, &vec![elsewhere()]).unwrap(),
        "import Pkg; Pkg.develop([Pkg.PackageSpec(name=\"A\")])"
    );
    let add = Command::<String>::Add { packages: vec!["A".to_owned()], develop: false };
    assert_eq!(
        pkg_expression(&add, &vec![elsewhere()]).unwrap(),
        "import Pkg; Pkg.add([Pkg.PackageSpec(name=\"A\")])"
    );
    assert_eq!(
        pkg_expression(&Command::<String>::Update { packages: vec![] }, &none).unwrap(),
        "import Pkg; Pkg.update()"
    );
    assert_eq!(
        pkg_expression(&Command::<String>::Update { packages: vec!["A".to_owned()] }, &none).unwrap(),
        "import Pkg; Pkg.update(String[\"A\"])"
    );
    assert_eq!(pkg_expression(&Command::<String>::Instantiate, &none).unwrap(), "import Pkg; Pkg.instantiate()");
    assert_eq!(pkg_expression(&Command::<String>::Resolve, &none).unwrap(), "import Pkg; Pkg.resolve()");
    assert_eq!(pkg_expression(&Command::<String>::Precompile, &none).unwrap(), "import Pkg; Pkg.precompile()");
    assert_eq!(pkg_expression(&Command::<String>::Status, &none).unwrap(), "import Pkg; Pkg.status()");
    assert_eq!(pkg_expression(&Command::<String>::Gc, &none).unwrap(), "import Pkg; Pkg.gc()");
    assert_eq!(
        pkg_expression(&Command::<String>::Outdated, &none).unwrap(),
        "import Pkg; Pkg.status(; outdated=true)"
    );
    assert_eq!(
        pkg_expression(&Command::<String>::Test { coverage: false, args: vec![] }, &none).unwrap(),
        "import Pkg; Pkg.test(; coverage=false, test_args=String[])"
    );
    assert_eq!(
        pkg_expression(&Command::<String>::Tree, &none).unwrap_err(),
        "this command cannot be executed through Julia Pkg"
    );
}

#[test]
fn describes_commands() {
    assert_eq!(command_description(&Command::<String>::Add { packages: vec![], develop: true }), "developing packages");
    assert_eq!(command_description(&Command::<String>::Add { packages: vec![], develop: false }), "adding packages");
    assert_eq!(command_description(&Command::<String>::Remove { packages: vec![] }), "removing packages");
    assert_eq!(command_description(&Command::<String>::Gc), "collecting unused packages");
    assert_eq!(command_description(&Command::<String>::Test { coverage: false, args: vec![] }), "running project tests");
    assert_eq!(command_description(&Command::<String>::Doctor), "running the command");
}

#[test]
fn pkg_commands_run_without_startup_files() {
    let (args, description) = invocation(Command::<String>::Status, "/tmp/demo", &Vec::new()).unwrap();
    assert_eq!(description, "reading project status");
    let expected: Vec<ProgramArg<String>> = [
        "--project=/tmp/demo",
        "--startup-file=no",
        "--history-file=no",
        "--color=no",
        "-e",
        "import Pkg; Pkg.status()",
    ]
    .iter()
    .map(|s| ProgramArg::Text((*s).to_owned()))
    .collect();
    assert_eq!(args, expected);
    assert_eq!(
        invocation(Command::<String>::Why { package: "A".to_owned() }, "/tmp/demo", &Vec::new()).unwrap_err(),
        "this command cannot be executed through Julia Pkg"
    );
}

#[test]
fn base_arguments() {
    assert_eq!(
        base_args(None, "1".to_owned()),
        vec!["--startup-file=no", "--history-file=no", "--color=no", "-e", "1"]
    );
    assert_eq!(probe_args(Some("/p"))[0], "--project=/p");
    assert_eq!(probe_args(None)[4], PROBE_SCRIPT);
    assert_eq!(graph_args("/p"), vec!["--project=/p", "--startup-file=no", "--history-file=no", "--color=no", "-e", GRAPH_SCRIPT]);
}

#[test]
fn reports_julia_failures() {
    assert_eq!(run_status("adding packages", &ProcessExit { success: true, code: Some(0) }), Ok(()));
    assert_eq!(
        run_status("adding packages", &ProcessExit { success: false, code: Some(1) }).unwrap_err(),
        "Julia failed while adding packages (exit code 1)"
    );
    assert_eq!(
        run_status("adding packages", &ProcessExit { success: false, code: None }).unwrap_err(),
        "Julia failed while adding packages"
    );
    assert_eq!(
        run_status("x", &ProcessExit { success: false, code: Some(-2147483648) }).unwrap_err(),
        "Julia failed while x (exit code -2147483648)"
    );
    assert_eq!(
        process_start_error("julia", true, "ignored"),
        "Julia executable 'julia' was not found; install Julia or set JPM_JULIA"
    );
    assert_eq!(process_start_error("julia", false, "denied"), "could not start Julia: denied");
}

#[test]
fn captures_dependency_data() {
    let ok = ProcessExit { success: true, code: Some(0) };
    let failed = ProcessExit { success: false, code: Some(3) };
    assert_eq!(capture(&ok, "noise", Some("node".to_owned())).unwrap(), "node");
    assert_eq!(capture(&ok, "", None).unwrap_err(), "Julia returned non-UTF-8 dependency data");
    assert_eq!(
        capture(&failed, "  \n  boom \n", Some(String::new())).unwrap_err(),
        "Julia failed while reading the dependency graph (exit code 3): boom"
    );
    assert_eq!(
        capture(&failed, " \n", None).unwrap_err(),
        "Julia failed while reading the dependency graph (exit code 3)"
    );
}

#[test]
fn formats_given_paths_or_the_project() {
    let args = format_args("/proj", &Vec::new());
    assert_eq!(&args[..5], &["--project=@jpm-tools", "--startup-file=no", "--history-file=no", "--color=no", "-e"]);
    assert!(args[5].starts_with("import Pkg\nif Base.find_package(\"JuliaFormatter\") === nothing\n"));
    assert!(args[5].contains("paths = [\"/proj\"]\nJuliaFormatter.format(paths; throw_on_error=true)\n"));
    let args = format_args("/proj", &vec!["/a".to_owned(), "/b $x".to_owned()]);
    assert!(args[5].contains("paths = [\"/a\", \"/b \\$x\"]\n"));
}

#[test]
fn generates_packages() {
    let (args, name) = generate_invocation("/work/Demo", Some("Demo"), false).unwrap();
    assert_eq!(name, "Demo");
    assert_eq!(args[4], "import Pkg; Pkg.generate(\"/work/Demo\")");
    assert_eq!(args.len(), 5);
    assert_eq!(
        generate_invocation("/", None, false).unwrap_err(),
        "cannot infer a package name from '/'"
    );
    assert_eq!(
        generate_invocation("/work/my-pkg", Some("my-pkg"), false).unwrap_err(),
        "'my-pkg' is not a valid Julia package name; use letters, numbers, and underscores"
    );
    assert_eq!(
        generate_invocation("/work/Demo", Some("Demo"), true).unwrap_err(),
        "'/work/Demo' already exists"
    );
}

#[test]
fn adds_canonical_test_scaffold_text() {
    let tests = test_scaffold("Demo");
    assert!(tests.contains("using Demo"));
    assert!(tests.contains("@testset \"Demo.jl\""));
    assert_eq!(
        tests,
        "using Test\nusing Demo\n\n@testset \"Demo.jl\" begin\n    # Add package tests here.\nend\n"
    );
    assert!(TEST_TARGET.contains("[extras]"));
    assert!(TEST_TARGET.contains("test = [\"Test\"]"));
}

#[test]
fn probe_reports_errors_in_order() {
    assert_eq!(parse_probe("").unwrap_err(), "Julia probe did not report its version");
    assert_eq!(
        parse_probe("version\t1\nproject\tp\n").unwrap_err(),
        "Julia probe did not report its depot"
    );
    assert_eq!(
        parse_probe("version\t1\nproject\tp\ndepot\td\n").unwrap_err(),
        "Julia probe did not report reachable registries"
    );
    assert_eq!(
        parse_probe("registries\tmany\n").unwrap_err(),
        "Julia returned an invalid registry count: many"
    );
    let probe = parse_probe("noise\nversion\t1\tx\nversion\t2\nproject\tp\ndepot\td\nregistries\t+7\nother\tz\n").unwrap();
    assert_eq!(probe.version, "2");
    assert_eq!(probe.registries, 7);
}

#[test]
fn reports_probe_failures() {
    let failed = ProcessExit { success: false, code: Some(1) };
    assert_eq!(
        jpm::julia::probe_outcome(&failed, "ERROR: boom\n", "").unwrap_err(),
        "Julia environment probe failed (exit code 1): ERROR: boom"
    );
    let ok = ProcessExit { success: true, code: Some(0) };
    let probe = jpm::julia::probe_outcome(&ok, "", "version\t1\nproject\tp\ndepot\td\nregistries\t0\n").unwrap();
    assert_eq!(probe.registries, 0);
}

#[test]
fn printed_reports_read_back() {
    for (version, project, depot, registries) in [
        ("1.12.6", "/tmp/Demo/Project.toml", "/home/me/.julia", 2usize),
        ("", "none", "C:\\Users\\me\\.julia", 0usize),
        ("1.10.0-rc1\tbeta", "/with spaces/Project.toml", "/depot\r/x", usize::MAX),
    ] {
        let report = format!("version\t{version}\nproject\t{project}\ndepot\t{depot}\nregistries\t{registries}\n");
        assert_eq!(
            parse_probe(&report).unwrap(),
            Probe {
                version: version.to_owned(),
                active_project: project.to_owned(),
                depot: depot.to_owned(),
                registries,
            }
        );
    }
}

#[test]
fn bad_counts_and_other_lines() {
    assert_eq!(
        parse_probe("version\t1\nproject\tp\ndepot\td\nregistries\t-1\n").unwrap_err(),
        "Julia returned an invalid registry count: -1"
    );
    assert_eq!(
        parse_probe("version\t1\nno tab here\nproject\tp\nnote\tx\ndepot\td\nregistries\t3\n").unwrap(),
        Probe { version: "1".to_owned(), active_project: "p".to_owned(), depot: "d".to_owned(), registries: 3 }
    );
}
