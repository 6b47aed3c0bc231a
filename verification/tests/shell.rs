use jpm::shell::{command_line, shell_quote};

#[test]
fn plain_words_are_left_alone() {
    assert_eq!(shell_quote("--project=/tmp/demo"), "--project=/tmp/demo");
    assert_eq!(shell_quote("a_b-c.d:e"), "a_b-c.d:e");
    assert_eq!(shell_quote(""), "");
}

#[test]
fn other_words_are_single_quoted() {
    assert_eq!(shell_quote("a b"), "'a b'");
    assert_eq!(shell_quote("it's"), "'it'\"'\"'s'");
    assert_eq!(shell_quote("$HOME"), "'$HOME'");
}

#[test]
fn builds_command_lines() {
    assert_eq!(
        command_line("julia", &vec!["--project=/p".to_owned(), "-e".to_owned(), "import Pkg; Pkg.status()".to_owned()]),
        "julia --project=/p -e 'import Pkg; Pkg.status()'"
    );
    assert_eq!(command_line("/opt/my julia", &Vec::new()), "'/opt/my julia'");
}

#[test]
fn printed_commands_keep_every_argument() {
    let args = vec!["--project=/tmp/my demo".to_owned(), "-e".to_owned(), "println(\"it's\")".to_owned()];
    assert_eq!(
        command_line("julia", &args),
        "julia '--project=/tmp/my demo' -e 'println(\"it'\"'\"'s\")'"
    );
}
