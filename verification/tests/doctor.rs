use jpm::doctor::{probe_report, report_header, report_line, ProjectFiles};
use jpm::julia::Probe;

#[test]
fn report_lines_show_their_status() {
    assert_eq!(report_line(true, "jpm", "0.4.0"), "[ok]   jpm: 0.4.0");
    assert_eq!(report_line(false, "Project", "none"), "[warn] Project: none");
}

#[test]
fn header_without_a_project() {
    assert_eq!(
        report_header("0.4.0", &None),
        vec![
            "jpm doctor".to_owned(),
            String::new(),
            "[ok]   jpm: 0.4.0".to_owned(),
            "[warn] Project: none found; run 'jpm init' or use --project <PATH>".to_owned(),
        ]
    );
}

#[test]
fn header_with_a_project() {
    let files = ProjectFiles {
        project_file: "/p/Project.toml".to_owned(),
        manifest: "/p/Manifest.toml".to_owned(),
        manifest_exists: false,
    };
    let lines = report_header("1", &Some(files));
    assert_eq!(lines[3], "[ok]   Project: /p/Project.toml");
    assert_eq!(lines[4], "[warn] Manifest: not found; it will be created when dependencies are resolved");
    let files = ProjectFiles {
        project_file: "/p/Project.toml".to_owned(),
        manifest: "/p/Manifest.toml".to_owned(),
        manifest_exists: true,
    };
    assert_eq!(report_header("1", &Some(files))[4], "[ok]   Manifest: /p/Manifest.toml");
}

#[test]
fn probe_findings() {
    let probe = Probe {
        version: "1.12.6".to_owned(),
        active_project: "/p/Project.toml".to_owned(),
        depot: "/home/me/.julia".to_owned(),
        registries: 0,
    };
    assert_eq!(
        probe_report(&probe),
        vec![
            "[ok]   Julia: 1.12.6".to_owned(),
            "[ok]   Active project: /p/Project.toml".to_owned(),
            "[ok]   Depot: /home/me/.julia".to_owned(),
            "[warn] Registries: none reachable; the General registry will be installed on first add".to_owned(),
            String::new(),
            "Environment is ready.".to_owned(),
        ]
    );
    let probe = Probe { registries: 12, ..probe };
    assert_eq!(probe_report(&probe)[3], "[ok]   Registries: 12 reachable");
}
