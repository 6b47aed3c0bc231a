//! The `jpm doctor` report.
use vstd::prelude::*;

use crate::cli::texts;
use crate::julia::{Probe, ProbeModel};
use crate::text::{chars_of, decimal, decimal_chars, extend_str, string_of};

verus! {

/// One line of the report: a finding that is fine (`[ok]`) or needs attention (`[warn]`).
pub open spec fn report_line_text(ok: bool, label: Seq<char>, detail: Seq<char>) -> Seq<char> {
    (if ok {
        "[ok]   "@
    } else {
        "[warn] "@
    }) + label + ": "@ + detail
}

/// A line of the report.
pub fn report_line(ok: bool, label: &str, detail: &str) -> (r: String)
    ensures
        r@ == report_line_text(ok, label@, detail@),
{
    let mut out = if ok {
        chars_of("[ok]   ")
    } else {
        chars_of("[warn] ")
    };
    extend_str(&mut out, label);
    extend_str(&mut out, ": ");
    extend_str(&mut out, detail);
    string_of(out.as_slice())
}

/// The files of the project that the report looks at: its `Project.toml`, and its
/// `Manifest.toml` with whether that file exists.
pub struct ProjectFiles {
    pub project_file: String,
    pub manifest: String,
    pub manifest_exists: bool,
}

/// The start of the report: the heading, `jpm`'s version and what was found of the project.
pub open spec fn header_text(version: Seq<char>, project: Option<ProjectFiles>) -> Seq<Seq<char>> {
    let head = seq!["jpm doctor"@, Seq::empty(), report_line_text(true, "jpm"@, version)];
    match project {
        Some(files) => head + seq![
            report_line_text(true, "Project"@, files.project_file@),
            if files.manifest_exists {
                report_line_text(true, "Manifest"@, files.manifest@)
            } else {
                report_line_text(false, "Manifest"@, "not found; it will be created when dependencies are resolved"@)
            },
        ],
        None => head.push(report_line_text(false, "Project"@, "none found; run 'jpm init' or use --project <PATH>"@)),
    }
}

/// The lines that open the report.
pub fn report_header(version: &str, project: &Option<ProjectFiles>) -> (r: Vec<String>)
    ensures
        texts(r@) == header_text(version@, *project),
{
    let mut lines: Vec<String> = Vec::new();
    lines.push(String::from_str("jpm doctor"));
    lines.push(String::new());
    lines.push(report_line(true, "jpm", version));
    match project {
        Some(files) => {
            lines.push(report_line(true, "Project", files.project_file.as_str()));
            if files.manifest_exists {
                lines.push(report_line(true, "Manifest", files.manifest.as_str()));
            } else {
                lines.push(report_line(false, "Manifest", "not found; it will be created when dependencies are resolved"));
            }
        },
        None => {
            lines.push(report_line(false, "Project", "none found; run 'jpm init' or use --project <PATH>"));
        },
    }
    assert(texts(lines@) == header_text(version@, *project));
    lines
}

/// The rest of the report, from what Julia said about its environment.
pub open spec fn probe_lines_text(p: ProbeModel) -> Seq<Seq<char>> {
    seq![
        report_line_text(true, "Julia"@, p.version),
        report_line_text(true, "Active project"@, p.active_project),
        report_line_text(true, "Depot"@, p.depot),
        if p.registries == 0 {
            report_line_text(false, "Registries"@, "none reachable; the General registry will be installed on first add"@)
        } else {
            report_line_text(true, "Registries"@, decimal(p.registries) + " reachable"@)
        },
        Seq::empty(),
        "Environment is ready."@,
    ]
}

/// The lines that end the report.
pub fn probe_report(probe: &Probe) -> (r: Vec<String>)
    ensures
        texts(r@) == probe_lines_text(probe.model()),
{
    let mut lines: Vec<String> = Vec::new();
    lines.push(report_line(true, "Julia", probe.version.as_str()));
    lines.push(report_line(true, "Active project", probe.active_project.as_str()));
    lines.push(report_line(true, "Depot", probe.depot.as_str()));
    if probe.registries == 0 {
        lines.push(report_line(false, "Registries", "none reachable; the General registry will be installed on first add"));
    } else {
        let mut d = decimal_chars(probe.registries);
        extend_str(&mut d, " reachable");
        let detail = string_of(d.as_slice());
        lines.push(report_line(true, "Registries", detail.as_str()));
    }
    lines.push(String::new());
    lines.push(String::from_str("Environment is ready."));
    assert(texts(lines@) == probe_lines_text(probe.model()));
    lines
}


/// The registries line of the report warns exactly when no registry is reachable; for any
/// other count it is a finding that names the count.
pub proof fn lemma_registries_line(p: ProbeModel)
    ensures
        p.registries == 0 ==> probe_lines_text(p)[3]
            == "[warn] Registries: none reachable; the General registry will be installed on first add"@,
        p.registries >= 1 ==> probe_lines_text(p)[3] == "[ok]   Registries: "@ + decimal(p.registries) + " reachable"@,
{
    reveal_strlit("[ok]   ");
    reveal_strlit("[warn] ");
    reveal_strlit("Registries");
    reveal_strlit(": ");
    reveal_strlit("[ok]   Registries: ");
    reveal_strlit("[warn] Registries: none reachable; the General registry will be installed on first add");
    reveal_strlit("none reachable; the General registry will be installed on first add");
    if p.registries == 0 {
        assert("[warn] "@ + "Registries"@ + ": "@ + "none reachable; the General registry will be installed on first add"@
            == "[warn] Registries: none reachable; the General registry will be installed on first add"@);
    } else {
        let d = decimal(p.registries) + " reachable"@;
        assert("[ok]   "@ + "Registries"@ + ": "@ + d == "[ok]   Registries: "@ + decimal(p.registries) + " reachable"@);
    }
}

} // verus!
