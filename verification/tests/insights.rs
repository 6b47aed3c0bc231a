use jpm::insights::{tree, why, Graph};

const GRAPH: &str = "\
node\ta\tApp\t1.0.0\ttrue
node\tb\tBridge\t2.0.0\tfalse
node\tc\tCore\t3.0.0\tfalse
node\td\tDirect\t4.0.0\ttrue
edge\ta\tb
edge\tb\tc
edge\td\tc
";

#[test]
fn parses_and_renders_dependency_tree() {
    let graph = Graph::parse(GRAPH).unwrap();
    assert_eq!(
        graph.render_tree(),
        "App v1.0.0\n`-- Bridge v2.0.0\n    `-- Core v3.0.0\n\nDirect v4.0.0\n`-- Core v3.0.0\n"
    );
}

#[test]
fn explains_direct_and_transitive_dependencies() {
    let graph = Graph::parse(GRAPH).unwrap();
    assert_eq!(
        graph.explain("App").unwrap(),
        "App v1.0.0 is a direct dependency of this project.\n"
    );
    assert_eq!(
        graph.explain("Core").unwrap(),
        "Core v3.0.0 is installed because:\n\nProject\n`-- Direct v4.0.0\n    `-- Core v3.0.0\n"
    );
}

#[test]
fn reports_unknown_package() {
    let graph = Graph::parse(GRAPH).unwrap();
    assert_eq!(
        graph.explain("Missing").unwrap_err(),
        "package 'Missing' is not installed"
    );
}

#[test]
fn empty_graph_has_no_dependencies() {
    let graph = Graph::parse("").unwrap();
    assert_eq!(graph.render_tree(), "No project dependencies.\n");
    let blank = Graph::parse("\n   \n\t\n").unwrap();
    assert_eq!(blank.render_tree(), "No project dependencies.\n");
}

#[test]
fn repeated_subtrees_are_marked() {
    let data = "\
node\ta\tApp\t\ttrue
node\tb\tBase64\t1.0.0\tfalse
node\tc\tCore\t2.0.0\tfalse
edge\ta\tc
edge\ta\tb
edge\tb\tc
";
    let graph = Graph::parse(data).unwrap();
    assert_eq!(
        graph.render_tree(),
        "App\n|-- Base64 v1.0.0\n|   `-- Core v2.0.0\n`-- Core v2.0.0 (*)\n"
    );
}

#[test]
fn dependency_cycles_terminate() {
    let data = "node\ta\tA\t1\ttrue\nnode\tb\tB\t2\tfalse\nedge\ta\tb\nedge\tb\ta\n";
    let graph = Graph::parse(data).unwrap();
    assert_eq!(graph.render_tree(), "A v1\n`-- B v2\n    `-- A v1 (*)\n");
}

#[test]
fn roots_and_dependencies_are_ordered_by_name() {
    let data = "\
node\t1\tZeta\t1\ttrue
node\t2\tAlpha\t1\ttrue
node\t3\tMid\t1\tfalse
node\t4\tLow\t1\tfalse
edge\t2\t3
edge\t2\t4
";
    let graph = Graph::parse(data).unwrap();
    assert_eq!(
        graph.render_tree(),
        "Alpha v1\n|-- Low v1\n`-- Mid v1\n\nZeta v1\n"
    );
}

#[test]
fn later_node_lines_replace_earlier_ones() {
    let data = "node\ta\tOld\t1\ttrue\nnode\ta\tNew\t2\ttrue\n";
    let graph = Graph::parse(data).unwrap();
    assert_eq!(graph.render_tree(), "New v2\n");
}

#[test]
fn rejects_bad_direct_flag() {
    let data = "node\ta\tApp\t1\ttrue\nnode\tb\tB\t1\tyes\n";
    assert_eq!(
        Graph::parse(data).unwrap_err(),
        "invalid direct-dependency flag on graph line 2"
    );
}

#[test]
fn rejects_malformed_lines() {
    assert_eq!(
        Graph::parse("\nnode\ta\tApp\n").unwrap_err(),
        "invalid dependency graph data on line 2"
    );
    assert_eq!(
        Graph::parse("edge\ta\tb\tc\n").unwrap_err(),
        "invalid dependency graph data on line 1"
    );
}

#[test]
fn rejects_edges_from_unknown_packages() {
    let data = "node\tb\tB\t1\ttrue\nedge\tx\tb\n";
    assert_eq!(
        Graph::parse(data).unwrap_err(),
        "dependency graph references unknown package 'x'"
    );
}

#[test]
fn ignores_edges_to_unknown_packages() {
    let data = "node\ta\tA\t1\ttrue\nedge\ta\tzz\nedge\tqq\tzz\n";
    let graph = Graph::parse(data).unwrap();
    assert_eq!(graph.render_tree(), "A v1\n");
}

#[test]
fn explains_case_insensitively_when_unambiguous() {
    let graph = Graph::parse(GRAPH).unwrap();
    assert_eq!(
        graph.explain("core").unwrap(),
        "Core v3.0.0 is installed because:\n\nProject\n`-- Direct v4.0.0\n    `-- Core v3.0.0\n"
    );
}

#[test]
fn reports_ambiguous_names() {
    let data = "node\ta\tfoo\t1\ttrue\nnode\tb\tFOO\t1\ttrue\n";
    let graph = Graph::parse(data).unwrap();
    assert_eq!(
        graph.explain("Foo").unwrap_err(),
        "package name 'Foo' is ambiguous"
    );
    assert_eq!(
        graph.explain("foo").unwrap(),
        "foo v1 is a direct dependency of this project.\n"
    );
}

#[test]
fn reports_unreachable_packages() {
    let data = "node\ta\tA\t1\ttrue\nnode\tb\tOrphan\t1\tfalse\n";
    let graph = Graph::parse(data).unwrap();
    assert_eq!(
        graph.explain("Orphan").unwrap_err(),
        "Orphan is installed but not reachable from this project"
    );
}

#[test]
fn explains_along_a_shortest_chain() {
    let data = "\
node\ta\tA\t1\ttrue
node\tb\tB\t1\tfalse
node\tc\tC\t1\tfalse
node\tt\tTarget\t9\tfalse
edge\ta\tb
edge\tb\tc
edge\tc\tt
edge\ta\tt
";
    let graph = Graph::parse(data).unwrap();
    assert_eq!(
        graph.explain("Target").unwrap(),
        "Target v9 is installed because:\n\nProject\n`-- A v1\n    `-- Target v9\n"
    );
}

#[test]
fn tree_and_why_read_julia_output() {
    assert_eq!(
        tree(GRAPH).unwrap(),
        "App v1.0.0\n`-- Bridge v2.0.0\n    `-- Core v3.0.0\n\nDirect v4.0.0\n`-- Core v3.0.0\n"
    );
    assert_eq!(
        why(GRAPH, "Bridge").unwrap(),
        "Bridge v2.0.0 is installed because:\n\nProject\n`-- App v1.0.0\n    `-- Bridge v2.0.0\n"
    );
    assert_eq!(
        why("bogus\n", "App").unwrap_err(),
        "invalid dependency graph data on line 1"
    );
    assert_eq!(tree("node\ta\tA\t1\tmaybe\n").unwrap_err(), "invalid direct-dependency flag on graph line 1");
}

#[test]
fn windows_line_endings_are_accepted() {
    let data = "node\ta\tApp\t1.0\ttrue\r\nnode\tb\tB\t2.0\tfalse\r\nedge\ta\tb\r\n";
    assert_eq!(tree(data).unwrap(), "App v1.0\n`-- B v2.0\n");
}

#[test]
fn explains_along_the_first_of_equally_short_chains() {
    let data = "\
node\tr2\tBeta\t1\ttrue
node\tr1\tAlpha\t1\ttrue
node\tn\tNorth\t1\tfalse
node\tm\tMiddle\t1\tfalse
node\tt\tTarget\t9\tfalse
edge\tr2\tm
edge\tr1\tn
edge\tr1\tm
edge\tm\tt
edge\tn\tt
";
    let graph = Graph::parse(data).unwrap();
    assert_eq!(
        graph.explain("Target").unwrap(),
        "Target v9 is installed because:\n\nProject\n`-- Alpha v1\n    `-- Middle v1\n        `-- Target v9\n"
    );
}
