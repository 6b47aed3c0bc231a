use jpm::cli::Command;
use jpm::project::{discover, discover_optional, project_use, validate, Ancestor, NamedProject, ProjectUse, PROJECT_TEMPLATE};

fn dir(path: &str, has_project_file: bool) -> Ancestor<String> {
    Ancestor { path: path.to_owned(), has_project_file }
}

#[test]
fn finds_the_nearest_project() {
    let ancestors = vec![dir("/a/b/c", false), dir("/a/b", true), dir("/a", true), dir("/", false)];
    assert_eq!(discover_optional(None, ancestors).unwrap(), Some("/a/b".to_owned()));
    assert_eq!(discover_optional(None, vec![dir("/x", false)]).unwrap(), None);
    assert_eq!(discover_optional::<String>(None, Vec::new()).unwrap(), None);
}

#[test]
fn a_named_project_wins() {
    assert_eq!(
        discover_optional(Some(Ok("/named".to_owned())), vec![dir("/a", true)]).unwrap(),
        Some("/named".to_owned())
    );
    assert_eq!(
        discover_optional(Some(Err("bad".to_owned())), vec![dir("/a", true)]).unwrap_err(),
        "bad"
    );
}

#[test]
fn discover_needs_a_project() {
    assert_eq!(discover(Ok(Some("/p".to_owned()))).unwrap(), "/p");
    assert_eq!(
        discover::<String>(Ok(None)).unwrap_err(),
        "no Julia project found; run 'jpm init' or pass --project <PATH>"
    );
    assert_eq!(
        discover::<String>(Err("cannot read current directory".to_owned())).unwrap_err(),
        "cannot read current directory"
    );
}

#[test]
fn validates_named_projects() {
    let directory = NamedProject {
        is_file: false,
        file_directory: "/work".to_owned(),
        holds_project_file: true,
        directory: "/work/demo".to_owned(),
    };
    assert_eq!(validate("/work/demo", directory).unwrap(), "/work/demo");
    let file = NamedProject {
        is_file: true,
        file_directory: "/work/demo".to_owned(),
        holds_project_file: false,
        directory: "/work/demo/Project.toml".to_owned(),
    };
    assert_eq!(validate("/work/demo/Project.toml", file).unwrap(), "/work/demo");
    let neither = NamedProject {
        is_file: false,
        file_directory: ".".to_owned(),
        holds_project_file: false,
        directory: "demo".to_owned(),
    };
    assert_eq!(
        validate("demo", neither).unwrap_err(),
        "'demo' is not a Julia project (Project.toml not found)"
    );
    assert_eq!(PROJECT_TEMPLATE, "[deps]\n");
}

#[test]
fn commands_say_what_they_need_of_the_project() {
    assert_eq!(project_use(&Command::<String>::Help), ProjectUse::NotNeeded);
    assert_eq!(project_use(&Command::<String>::Init { path: None }), ProjectUse::NotNeeded);
    assert_eq!(project_use(&Command::<String>::New { path: "P".to_owned() }), ProjectUse::NotNeeded);
    assert_eq!(project_use(&Command::<String>::Doctor), ProjectUse::Optional);
    assert_eq!(project_use(&Command::<String>::Use { channel: "1".to_owned() }), ProjectUse::OptionalOrWorkingDirectory);
    assert_eq!(project_use(&Command::<String>::Tree), ProjectUse::Required);
    assert_eq!(project_use(&Command::<String>::Run { args: vec![] }), ProjectUse::Required);
}
