use std::path::PathBuf;

use jpm::paths::{absolute_path, anchored};

fn path(text: &str) -> PathBuf {
    PathBuf::from(text)
}

#[test]
fn expands_the_home_directory() {
    assert_eq!(
        absolute_path("~/pkgs/Demo", Some(path("/home/me")), Ok(path("/work"))).unwrap(),
        path("/home/me/pkgs/Demo")
    );
    assert_eq!(
        absolute_path("~/pkgs", None, Ok(path("/work"))).unwrap_err(),
        "cannot expand '~': HOME is not set"
    );
}

#[test]
fn relative_paths_start_at_the_working_directory() {
    assert_eq!(absolute_path("./Local", None, Ok(path("/work"))).unwrap(), path("/work/./Local"));
    assert_eq!(absolute_path("/abs/Local", None, Err("gone".to_owned())).unwrap(), path("/abs/Local"));
    assert_eq!(
        absolute_path("Local", Some(path("/home/me")), Err("gone".to_owned())).unwrap_err(),
        "cannot resolve package path: gone"
    );
    assert_eq!(
        absolute_path("~/x", Some(path("relative-home")), Ok(path("/work"))).unwrap(),
        path("/work/relative-home/x")
    );
}

#[test]
fn anchoring_keeps_absolute_paths() {
    assert_eq!(anchored(path("/a"), true, Err("unused".to_owned())).unwrap(), path("/a"));
    assert_eq!(anchored(path("b"), false, Ok(path("/w"))).unwrap(), path("/w/b"));
    assert_eq!(
        anchored(path("b"), false, Err("denied".to_owned())).unwrap_err(),
        "cannot resolve package path: denied"
    );
}
