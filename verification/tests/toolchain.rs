use jpm::julia::{ProcessExit, ProgramArg};
use jpm::toolchain::{juliaup_start_error, juliaup_status, select, validate_channel};

#[test]
fn validates_juliaup_channels() {
    assert!(validate_channel("1.12").is_ok());
    assert!(validate_channel("release").is_ok());
    assert_eq!(
        validate_channel("bad channel").unwrap_err(),
        "invalid Julia channel 'bad channel'"
    );
}

#[test]
fn refuses_empty_and_control_channels() {
    assert_eq!(validate_channel("").unwrap_err(), "invalid Julia channel ''");
    assert!(validate_channel("a\u{7}b").is_err());
    assert!(validate_channel("tab\there").is_err());
    assert!(validate_channel("nbsp\u{a0}").is_err());
}

#[test]
fn selects_a_channel_for_the_project() {
    let (add, set) = select("/work/demo".to_owned(), "1.12").unwrap();
    assert_eq!(add, vec![ProgramArg::Text("add".to_owned()), ProgramArg::Text("1.12".to_owned())]);
    assert_eq!(
        set,
        vec![
            ProgramArg::Text("override".to_owned()),
            ProgramArg::Text("set".to_owned()),
            ProgramArg::Text("--path".to_owned()),
            ProgramArg::Raw("/work/demo".to_owned()),
            ProgramArg::Text("1.12".to_owned()),
        ]
    );
    assert_eq!(select("/p".to_owned(), "x y").unwrap_err(), "invalid Julia channel 'x y'");
}

#[test]
fn reports_juliaup_failures() {
    assert_eq!(juliaup_status("installing the Julia channel", &ProcessExit { success: true, code: Some(0) }), Ok(()));
    assert_eq!(
        juliaup_status("installing the Julia channel", &ProcessExit { success: false, code: Some(2) }).unwrap_err(),
        "Juliaup failed while installing the Julia channel (exit code 2)"
    );
    assert_eq!(
        juliaup_start_error(true, "x"),
        "Juliaup was not found; install it from https://julialang.org/install/ or set JPM_JULIAUP"
    );
    assert_eq!(juliaup_start_error(false, "denied"), "could not start Juliaup: denied");
}
