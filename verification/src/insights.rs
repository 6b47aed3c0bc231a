//! The resolved dependency graph: reading it, drawing it as a tree, and explaining
//! why a package is installed.
use vstd::prelude::*;

use crate::text::{
    blank, chars_of, decimal, decimal_chars, eq_str, extend, extend_str, is_blank, lemma_seq_lt_asymmetric,
    lemma_seq_lt_irreflexive, lemma_seq_lt_total, lemma_seq_lt_transitive, lines, lines_of, lt, seq_eq, seq_lt,
    split_chars, split_on, string_of, eq_ignore_case, same_ignoring_case,
};

verus! {

// ---------------------------------------------------------------------------
// Models
// ---------------------------------------------------------------------------

/// What a package of the graph is, mathematically.
pub struct PackageModel {
    pub id: Seq<char>,
    pub name: Seq<char>,
    pub version: Option<Seq<char>>,
    pub direct: bool,
    /// Positions, in the graph, of the packages this one depends on.
    pub dependencies: Seq<usize>,
}

/// One resolved package.
#[derive(Debug)]
pub struct Package {
    id: Vec<char>,
    name: Vec<char>,
    version: Option<Vec<char>>,
    direct: bool,
    dependencies: Vec<usize>,
}

/// An optional character vector as characters.
pub open spec fn opt_view(v: Option<Vec<char>>) -> Option<Seq<char>> {
    match v {
        Some(s) => Some(s@),
        None => None,
    }
}

impl View for Package {
    type V = PackageModel;

    closed spec fn view(&self) -> PackageModel {
        PackageModel {
            id: self.id@,
            name: self.name@,
            version: opt_view(self.version),
            direct: self.direct,
            dependencies: self.dependencies@,
        }
    }
}

/// The resolved dependency graph, its packages ordered by id.
#[derive(Debug)]
pub struct Graph {
    packages: Vec<Package>,
}

impl Graph {
    #[verifier::type_invariant]
    closed spec fn well_formed(self) -> bool {
        graph_wf(self@)
    }
}

impl View for Graph {
    type V = Seq<PackageModel>;

    closed spec fn view(&self) -> Seq<PackageModel> {
        self.packages@.map_values(|p: Package| p@)
    }
}

/// Package ids strictly increase along the graph.
pub open spec fn ids_sorted(g: Seq<PackageModel>) -> bool {
    forall|a: int, b: int| 0 <= a < b < g.len() ==> seq_lt(#[trigger] g[a].id, #[trigger] g[b].id)
}

/// A well-formed graph: ids in order and every dependency names a package of the graph.
pub open spec fn graph_wf(g: Seq<PackageModel>) -> bool {
    &&& ids_sorted(g)
    &&& forall|k: int, j: int|
        0 <= k < g.len() && 0 <= j < g[k].dependencies.len() ==> #[trigger] g[k].dependencies[j] < g.len()
}

/// The ids of the packages, in graph order.
pub open spec fn ids_of(g: Seq<PackageModel>) -> Seq<Seq<char>> {
    g.map_values(|p: PackageModel| p.id)
}

/// The names of the packages, in graph order.
pub open spec fn names_of(g: Seq<PackageModel>) -> Seq<Seq<char>> {
    g.map_values(|p: PackageModel| p.name)
}

/// Position of the first occurrence of `id` in `ids`, or -1.
pub open spec fn index_of(ids: Seq<Seq<char>>, id: Seq<char>) -> int
    decreases ids.len(),
{
    if ids.len() == 0 {
        -1
    } else {
        let f = index_of(ids.drop_last(), id);
        if f >= 0 {
            f
        } else if ids.last() == id {
            ids.len() - 1
        } else {
            -1
        }
    }
}

/// What `index_of` gives: a position holding the id, the first one, or -1 when there is none.
pub proof fn lemma_index_of(ids: Seq<Seq<char>>, id: Seq<char>)
    ensures
        -1 <= index_of(ids, id) < ids.len(),
        index_of(ids, id) >= 0 ==> ids[index_of(ids, id)] == id,
        index_of(ids, id) < 0 ==> forall|k: int| 0 <= k < ids.len() ==> ids[k] != id,
        forall|k: int| 0 <= k < ids.len() && ids[k] == id ==> index_of(ids, id) <= k,
    decreases ids.len(),
{
    if ids.len() > 0 {
        lemma_index_of(ids.drop_last(), id);
        assert forall|k: int| 0 <= k < ids.len() - 1 implies ids.drop_last()[k] == ids[k] by {}
    }
}

// ---------------------------------------------------------------------------
// Reading the graph
// ---------------------------------------------------------------------------

/// A `node` line: id, name, version text (empty when unknown) and whether the project
/// depends on the package directly.
pub struct NodeLine {
    pub id: Seq<char>,
    pub name: Seq<char>,
    pub version: Seq<char>,
    pub direct: bool,
}

/// An `edge` line: `from` depends on `to`.
pub struct EdgeLine {
    pub from: Seq<char>,
    pub to: Seq<char>,
}

/// What one line of graph data is.
pub enum GraphLine {
    Blank,
    Node(NodeLine),
    Edge(EdgeLine),
    BadFlag,
    Bad,
}

/// What one line of graph data says.
pub open spec fn classify(line: Seq<char>) -> GraphLine {
    if is_blank(line) {
        GraphLine::Blank
    } else {
        let f = split_on(line, '\t');
        if f.len() == 5 && f[0] == "node"@ {
            if f[4] == "true"@ || f[4] == "false"@ {
                GraphLine::Node(NodeLine { id: f[1], name: f[2], version: f[3], direct: f[4] == "true"@ })
            } else {
                GraphLine::BadFlag
            }
        } else if f.len() == 3 && f[0] == "edge"@ {
            GraphLine::Edge(EdgeLine { from: f[1], to: f[2] })
        } else {
            GraphLine::Bad
        }
    }
}

/// The node and edge lines of the data, in order, or the message for the first bad line
/// (lines are numbered from 1).
pub open spec fn read_lines(ls: Seq<Seq<char>>) -> Result<(Seq<NodeLine>, Seq<EdgeLine>), Seq<char>>
    decreases ls.len(),
{
    if ls.len() == 0 {
        Ok((Seq::empty(), Seq::empty()))
    } else {
        match read_lines(ls.drop_last()) {
            Err(m) => Err(m),
            Ok(rec) => match classify(ls.last()) {
                GraphLine::Blank => Ok(rec),
                GraphLine::Node(n) => Ok((rec.0.push(n), rec.1)),
                GraphLine::Edge(e) => Ok((rec.0, rec.1.push(e))),
                GraphLine::BadFlag => Err("invalid direct-dependency flag on graph line "@ + decimal(ls.len())),
                GraphLine::Bad => Err("invalid dependency graph data on line "@ + decimal(ls.len())),
            },
        }
    }
}

/// Each id mapped to its last node line.
pub open spec fn node_map(ns: Seq<NodeLine>) -> Map<Seq<char>, NodeLine>
    decreases ns.len(),
{
    if ns.len() == 0 {
        Map::empty()
    } else {
        node_map(ns.drop_last()).insert(ns.last().id, ns.last())
    }
}

/// The version that a node line gives: none when its version text is empty.
pub open spec fn node_version(n: NodeLine) -> Option<Seq<char>> {
    if n.version.len() == 0 {
        None
    } else {
        Some(n.version)
    }
}

/// `g` lists the packages of the node lines: one per id, in id order, each as its last line says.
pub open spec fn lists_nodes(g: Seq<PackageModel>, ns: Seq<NodeLine>) -> bool {
    &&& ids_sorted(g)
    &&& forall|id: Seq<char>| node_map(ns).contains_key(id) <==> exists|k: int| 0 <= k < g.len() && #[trigger] g[k].id == id
    &&& forall|k: int| 0 <= k < g.len() ==> {
        let n = #[trigger] node_map(ns)[g[k].id];
        &&& g[k].name == n.name
        &&& g[k].version == node_version(n)
        &&& g[k].direct == n.direct
    }
}

/// The first edge whose target is a package but whose source is not: its source.
pub open spec fn edge_error(es: Seq<EdgeLine>, known: Set<Seq<char>>) -> Option<Seq<char>>
    decreases es.len(),
{
    if es.len() == 0 {
        None
    } else {
        match edge_error(es.drop_last(), known) {
            Some(from) => Some(from),
            None => if known.contains(es.last().to) && !known.contains(es.last().from) {
                Some(es.last().from)
            } else {
                None
            },
        }
    }
}

/// Positions of the targets of the edges that leave package `k`, in edge order,
/// leaving out edges to unknown packages.
pub open spec fn edge_targets(ids: Seq<Seq<char>>, es: Seq<EdgeLine>, k: int) -> Seq<usize>
    decreases es.len(),
{
    if es.len() == 0 {
        Seq::empty()
    } else {
        let r = edge_targets(ids, es.drop_last(), k);
        let e = es.last();
        if e.from == ids[k] && index_of(ids, e.to) >= 0 {
            r.push(index_of(ids, e.to) as usize)
        } else {
            r
        }
    }
}

/// Inserts `x` into `s` after every element whose name is not greater than its own.
pub open spec fn insert_by_name(names: Seq<Seq<char>>, s: Seq<usize>, x: usize) -> Seq<usize>
    decreases s.len(),
{
    if s.len() == 0 {
        seq![x]
    } else if seq_lt(names[x as int], names[s.last() as int]) {
        insert_by_name(names, s.drop_last(), x).push(s.last())
    } else {
        s.push(x)
    }
}

/// `s` stably sorted by package name (equal names keep their order).
pub open spec fn sort_by_name(names: Seq<Seq<char>>, s: Seq<usize>) -> Seq<usize>
    decreases s.len(),
{
    if s.len() == 0 {
        Seq::empty()
    } else {
        insert_by_name(names, sort_by_name(names, s.drop_last()), s.last())
    }
}

/// `g` is the graph that the node and edge lines describe.
pub open spec fn describes(g: Seq<PackageModel>, ns: Seq<NodeLine>, es: Seq<EdgeLine>) -> bool {
    &&& lists_nodes(g, ns)
    &&& forall|k: int| 0 <= k < g.len() ==> #[trigger] g[k].dependencies == sort_by_name(names_of(g), edge_targets(ids_of(g), es, k))
}

/// Reading more lines after two beginnings of the same length that read alike reads alike.
proof fn lemma_read_lines_same_start(x: Seq<Seq<char>>, y: Seq<Seq<char>>, rest: Seq<Seq<char>>)
    requires
        x.len() == y.len(),
        read_lines(x) == read_lines(y),
    ensures
        read_lines(x + rest) == read_lines(y + rest),
    decreases rest.len(),
{
    if rest.len() == 0 {
        assert(x + rest == x);
        assert(y + rest == y);
    } else {
        lemma_read_lines_same_start(x, y, rest.drop_last());
        assert((x + rest).drop_last() == x + rest.drop_last());
        assert((y + rest).drop_last() == y + rest.drop_last());
        assert((x + rest).last() == rest.last());
        assert((y + rest).last() == rest.last());
    }
}

/// Where an edge line stands next to a node line does not matter: swapping the two reads
/// the same node and edge lines, or fails with the same message.
pub proof fn lemma_edge_line_order(a: Seq<Seq<char>>, node: Seq<char>, edge: Seq<char>, b: Seq<Seq<char>>)
    requires
        classify(node) is Node,
        classify(edge) is Edge,
    ensures
        read_lines(a + seq![node, edge] + b) == read_lines(a + seq![edge, node] + b),
{
    let x = a + seq![node, edge];
    let y = a + seq![edge, node];
    assert(x.drop_last() == a.push(node));
    assert(y.drop_last() == a.push(edge));
    assert(a.push(node).drop_last() == a);
    assert(a.push(edge).drop_last() == a);
    assert(x.last() == edge && y.last() == node);
    assert(a.push(node).last() == node && a.push(edge).last() == edge);
    let n = classify(node)->Node_0;
    let e = classify(edge)->Edge_0;
    match read_lines(a) {
        Err(m) => {
            assert(read_lines(a.push(node)) == Err::<(Seq<NodeLine>, Seq<EdgeLine>), Seq<char>>(m));
            assert(read_lines(a.push(edge)) == Err::<(Seq<NodeLine>, Seq<EdgeLine>), Seq<char>>(m));
        },
        Ok(rec) => {
            assert(read_lines(a.push(node)) == Ok::<(Seq<NodeLine>, Seq<EdgeLine>), Seq<char>>((rec.0.push(n), rec.1)));
            assert(read_lines(a.push(edge)) == Ok::<(Seq<NodeLine>, Seq<EdgeLine>), Seq<char>>((rec.0, rec.1.push(e))));
        },
    }
    assert(read_lines(x) == read_lines(y));
    lemma_read_lines_same_start(x, y, b);
}

/// The message with which reading `input` fails, if it does.
pub open spec fn graph_error(input: Seq<char>) -> Option<Seq<char>> {
    match read_lines(lines_of(input)) {
        Err(m) => Some(m),
        Ok(rec) => match edge_error(rec.1, node_map(rec.0).dom()) {
            Some(from) => Some("dependency graph references unknown package '"@ + from + "'"@),
            None => None,
        },
    }
}


// ---------------------------------------------------------------------------
// Reading the graph: executable side
// ---------------------------------------------------------------------------

struct NodeEntry {
    id: Vec<char>,
    name: Vec<char>,
    version: Vec<char>,
    direct: bool,
}

impl View for NodeEntry {
    type V = NodeLine;

    closed spec fn view(&self) -> NodeLine {
        NodeLine { id: self.id@, name: self.name@, version: self.version@, direct: self.direct }
    }
}

struct EdgeEntry {
    from: Vec<char>,
    to: Vec<char>,
}

impl View for EdgeEntry {
    type V = EdgeLine;

    closed spec fn view(&self) -> EdgeLine {
        EdgeLine { from: self.from@, to: self.to@ }
    }
}

enum LineEntry {
    Blank,
    Node(NodeEntry),
    Edge(EdgeEntry),
    BadFlag,
    Bad,
}

spec fn entry_matches(e: LineEntry, l: GraphLine) -> bool {
    match e {
        LineEntry::Blank => l is Blank,
        LineEntry::Node(n) => l matches GraphLine::Node(m) && m == n@,
        LineEntry::Edge(x) => l matches GraphLine::Edge(m) && m == x@,
        LineEntry::BadFlag => l is BadFlag,
        LineEntry::Bad => l is Bad,
    }
}

fn classify_line(line: &Vec<char>) -> (r: LineEntry)
    ensures
        entry_matches(r, classify(line@)),
{
    if blank(line.as_slice()) {
        return LineEntry::Blank;
    }
    let f = split_chars(line.as_slice(), '\t');
    if f.len() == 5 && eq_str(f[0].as_slice(), "node") {
        let is_true = eq_str(f[4].as_slice(), "true");
        let is_false = eq_str(f[4].as_slice(), "false");
        if is_true || is_false {
            let id = copy_chars(&f[1]);
            let name = copy_chars(&f[2]);
            let version = copy_chars(&f[3]);
            LineEntry::Node(NodeEntry { id, name, version, direct: is_true })
        } else {
            LineEntry::BadFlag
        }
    } else if f.len() == 3 && eq_str(f[0].as_slice(), "edge") {
        let from = copy_chars(&f[1]);
        let to = copy_chars(&f[2]);
        LineEntry::Edge(EdgeEntry { from, to })
    } else {
        LineEntry::Bad
    }
}

/// A fresh copy of a character vector.
fn copy_chars(v: &Vec<char>) -> (r: Vec<char>)
    ensures
        r@ == v@,
{
    let mut out: Vec<char> = Vec::new();
    extend(&mut out, v.as_slice());
    out
}


spec fn entries(v: Seq<NodeEntry>) -> Seq<NodeLine> {
    v.map_values(|e: NodeEntry| e@)
}

spec fn edge_lines(v: Seq<EdgeEntry>) -> Seq<EdgeLine> {
    v.map_values(|e: EdgeEntry| e@)
}

/// The table `t` holds, in id order, the last node line of each id of `ns`.
spec fn table_lists(t: Seq<NodeLine>, ns: Seq<NodeLine>) -> bool {
    &&& forall|a: int, b: int| 0 <= a < b < t.len() ==> seq_lt(#[trigger] t[a].id, #[trigger] t[b].id)
    &&& forall|id: Seq<char>| node_map(ns).contains_key(id) <==> exists|k: int| 0 <= k < t.len() && #[trigger] t[k].id == id
    &&& forall|k: int| 0 <= k < t.len() ==> #[trigger] node_map(ns)[t[k].id] == t[k]
}

/// Records a node line in the id-ordered table, replacing an earlier line with the same id.
fn insert_entry(table: &mut Vec<NodeEntry>, n: NodeEntry, Ghost(ns): Ghost<Seq<NodeLine>>)
    requires
        table_lists(entries(old(table)@), ns),
    ensures
        table_lists(entries(final(table)@), ns.push(n@)),
{
    let ghost t = entries(table@);
    let ghost nm = node_map(ns);
    let ghost nl = n@;
    assert(ns.push(nl).drop_last() == ns);
    assert(node_map(ns.push(nl)) == nm.insert(nl.id, nl));
    let mut p: usize = 0;
    while p < table.len() && lt(table[p].id.as_slice(), n.id.as_slice())
        invariant
            t == entries(table@),
            nl == n@,
            p <= t.len(),
            forall|q: int| 0 <= q < p ==> seq_lt(#[trigger] t[q].id, nl.id),
        decreases t.len() - p,
    {
        assert(t[p as int] == table@[p as int]@);
        p = p + 1;
    }
    if p < table.len() && seq_eq(table[p].id.as_slice(), n.id.as_slice()) {
        assert(t[p as int].id == nl.id);
        table.set(p, n);
        let ghost t2 = entries(table@);
        assert(t2 == t.update(p as int, nl));
        assert forall|k: int| 0 <= k < t.len() && k != p implies #[trigger] t[k].id != nl.id by {
            if k < p {
                lemma_seq_lt_irreflexive(t[k].id);
            } else {
                lemma_seq_lt_irreflexive(t[p as int].id);
                lemma_seq_lt_asymmetric(t[p as int].id, t[k].id);
            }
        }
        assert forall|id: Seq<char>| nm.insert(nl.id, nl).contains_key(id) implies exists|k: int| 0 <= k < t2.len() && #[trigger] t2[k].id == id by {
            if id == nl.id {
                assert(t2[p as int].id == id);
            } else {
                let k = choose|k: int| 0 <= k < t.len() && #[trigger] t[k].id == id;
                assert(t2[k].id == id);
            }
        }
    } else {
        proof {
            if p < t.len() {
                assert(t[p as int] == table@[p as int]@);
                lemma_seq_lt_total(t[p as int].id, nl.id);
            }
            assert forall|q: int| p <= q < t.len() implies seq_lt(nl.id, #[trigger] t[q].id) by {
                if q > p {
                    lemma_seq_lt_transitive(nl.id, t[p as int].id, t[q].id);
                }
            }
        }
        table.insert(p, n);
        let ghost t2 = entries(table@);
        assert(t2 == t.insert(p as int, nl));
        assert forall|k: int| 0 <= k < t.len() implies #[trigger] t[k].id != nl.id by {
            lemma_seq_lt_irreflexive(nl.id);
        }
        assert forall|a: int, b: int| 0 <= a < b < t2.len() implies seq_lt(#[trigger] t2[a].id, #[trigger] t2[b].id) by {
            if a < p && b > p {
                lemma_seq_lt_transitive(t2[a].id, nl.id, t2[b].id);
            }
        }
        assert forall|id: Seq<char>| nm.insert(nl.id, nl).contains_key(id) implies exists|k: int| 0 <= k < t2.len() && #[trigger] t2[k].id == id by {
            if id == nl.id {
                assert(t2[p as int].id == id);
            } else {
                let k = choose|k: int| 0 <= k < t.len() && #[trigger] t[k].id == id;
                if k < p {
                    assert(t2[k].id == id);
                } else {
                    assert(t2[k + 1].id == id);
                }
            }
        }
        assert forall|id: Seq<char>| (exists|k: int| 0 <= k < t2.len() && #[trigger] t2[k].id == id) implies nm.insert(nl.id, nl).contains_key(id) by {
            let k = choose|k: int| 0 <= k < t2.len() && #[trigger] t2[k].id == id;
            if k < p {
                assert(t[k].id == id);
            } else if k > p {
                assert(t[k - 1].id == id);
            }
        }
    }
}


spec fn entry_ids(t: Seq<NodeLine>) -> Seq<Seq<char>> {
    t.map_values(|n: NodeLine| n.id)
}

spec fn entry_names(t: Seq<NodeLine>) -> Seq<Seq<char>> {
    t.map_values(|n: NodeLine| n.name)
}

/// An error in a prefix of the lines is the error of all of them.
proof fn lemma_read_lines_error(ls: Seq<Seq<char>>, n: int)
    requires
        0 <= n <= ls.len(),
        read_lines(ls.take(n)) is Err,
    ensures
        read_lines(ls) == read_lines(ls.take(n)),
    decreases ls.len() - n,
{
    if n < ls.len() {
        assert(ls.take(n + 1).drop_last() == ls.take(n));
        lemma_read_lines_error(ls, n + 1);
    } else {
        assert(ls.take(n) == ls);
    }
}

/// A failing edge in a prefix of the edges is the failing edge of all of them.
proof fn lemma_edge_error(es: Seq<EdgeLine>, known: Set<Seq<char>>, n: int)
    requires
        0 <= n <= es.len(),
        edge_error(es.take(n), known) is Some,
    ensures
        edge_error(es, known) == edge_error(es.take(n), known),
    decreases es.len() - n,
{
    if n < es.len() {
        assert(es.take(n + 1).drop_last() == es.take(n));
        lemma_edge_error(es, known, n + 1);
    } else {
        assert(es.take(n) == es);
    }
}

/// Sorting by name keeps every position below `n` if it was.
proof fn lemma_sort_bounded(names: Seq<Seq<char>>, s: Seq<usize>, n: int)
    requires
        forall|i: int| 0 <= i < s.len() ==> s[i] < n,
    ensures
        sort_by_name(names, s).len() == s.len(),
        forall|i: int| 0 <= i < sort_by_name(names, s).len() ==> #[trigger] sort_by_name(names, s)[i] < n,
    decreases s.len(),
{
    if s.len() > 0 {
        lemma_sort_bounded(names, s.drop_last(), n);
        lemma_insert_bounded(names, sort_by_name(names, s.drop_last()), s.last(), n);
    }
}

proof fn lemma_insert_bounded(names: Seq<Seq<char>>, s: Seq<usize>, x: usize, n: int)
    requires
        x < n,
        forall|i: int| 0 <= i < s.len() ==> s[i] < n,
    ensures
        insert_by_name(names, s, x).len() == s.len() + 1,
        forall|i: int| 0 <= i < insert_by_name(names, s, x).len() ==> #[trigger] insert_by_name(names, s, x)[i] < n,
    decreases s.len(),
{
    if s.len() > 0 {
        lemma_insert_bounded(names, s.drop_last(), x, n);
    }
}

/// Position of the entry with the given id.
fn find_entry(table: &Vec<NodeEntry>, id: &Vec<char>) -> (r: Option<usize>)
    ensures
        r matches Some(k) ==> k as int == index_of(entry_ids(entries(table@)), id@),
        r is None ==> index_of(entry_ids(entries(table@)), id@) == -1,
{
    let ghost ids = entry_ids(entries(table@));
    let mut k: usize = 0;
    while k < table.len()
        invariant
            ids == entry_ids(entries(table@)),
            k <= ids.len(),
            index_of(ids.take(k as int), id@) == -1,
        decreases ids.len() - k,
    {
        assert(ids.take(k + 1).drop_last() == ids.take(k as int));
        assert(ids[k as int] == table@[k as int].id@);
        if seq_eq(table[k].id.as_slice(), id.as_slice()) {
            proof {
                lemma_index_of_prefix(ids, id@, k + 1);
            }
            return Some(k);
        }
        k = k + 1;
    }
    assert(ids.take(ids.len() as int) == ids);
    None
}

proof fn lemma_index_of_prefix(ids: Seq<Seq<char>>, id: Seq<char>, n: int)
    requires
        0 <= n <= ids.len(),
        index_of(ids.take(n), id) >= 0,
    ensures
        index_of(ids, id) == index_of(ids.take(n), id),
    decreases ids.len() - n,
{
    if n < ids.len() {
        assert(ids.take(n + 1).drop_last() == ids.take(n));
        lemma_index_of_prefix(ids, id, n + 1);
    } else {
        assert(ids.take(n) == ids);
    }
}

/// The character sequences held by a vector of character vectors.
pub open spec fn views(v: Seq<Vec<char>>) -> Seq<Seq<char>> {
    v.map_values(|x: Vec<char>| x@)
}

/// Inserts `x` among the already sorted positions `v` by name.
fn insert_by_name_exec(names: &Vec<Vec<char>>, v: &mut Vec<usize>, x: usize)
    requires
        x < names@.len(),
        forall|i: int| 0 <= i < old(v)@.len() ==> old(v)@[i] < names@.len(),
    ensures
        final(v)@ == insert_by_name(views(names@), old(v)@, x),
{
    let ghost nv = views(names@);
    let ghost s = v@;
    let mut p: usize = v.len();
    assert(s.take(s.len() as int) == s);
    assert(s.skip(s.len() as int) == Seq::<usize>::empty());
    while p > 0 && lt(names[x].as_slice(), names[v[p - 1]].as_slice())
        invariant
            nv == views(names@),
            v@ == s,
            x < names@.len(),
            forall|i: int| 0 <= i < s.len() ==> s[i] < names@.len(),
            p <= s.len(),
            insert_by_name(nv, s, x) == insert_by_name(nv, s.take(p as int), x) + s.skip(p as int),
        decreases p,
    {
        proof {
            assert(s.take(p as int).drop_last() == s.take(p - 1));
            assert(s.take(p as int).last() == s[p - 1]);
            assert(insert_by_name(nv, s.take(p as int), x) == insert_by_name(nv, s.take(p - 1), x).push(s[p - 1]));
            assert(insert_by_name(nv, s.take(p - 1), x).push(s[p - 1]) + s.skip(p as int) == insert_by_name(nv, s.take(p - 1), x) + s.skip(p - 1));
        }
        p = p - 1;
    }
    proof {
        if p > 0 {
            assert(s.take(p as int).last() == s[p - 1]);
        }
    }
    v.insert(p, x);
    assert(v@ == s.take(p as int).push(x) + s.skip(p as int));
}

/// Positions `v` stably sorted by name.
fn sort_by_name_exec(names: &Vec<Vec<char>>, v: &Vec<usize>) -> (r: Vec<usize>)
    requires
        forall|i: int| 0 <= i < v@.len() ==> v@[i] < names@.len(),
    ensures
        r@ == sort_by_name(views(names@), v@),
{
    let ghost nv = views(names@);
    let mut out: Vec<usize> = Vec::new();
    let mut i: usize = 0;
    while i < v.len()
        invariant
            nv == views(names@),
            forall|j: int| 0 <= j < v@.len() ==> v@[j] < names@.len(),
            i <= v@.len(),
            out@ == sort_by_name(nv, v@.take(i as int)),
        decreases v@.len() - i,
    {
        proof {
            assert forall|j: int| 0 <= j < v@.take(i as int).len() implies v@.take(i as int)[j] < names@.len() by {
                assert(v@.take(i as int)[j] == v@[j]);
            }
            lemma_sort_bounded(nv, v@.take(i as int), names@.len() as int);
            assert(v@.take(i + 1).drop_last() == v@.take(i as int));
        }
        insert_by_name_exec(names, &mut out, v[i]);
        i = i + 1;
    }
    assert(v@.take(v@.len() as int) == v@);
    out
}


// ---------------------------------------------------------------------------
// Reading the graph: putting it together
// ---------------------------------------------------------------------------

/// The package at position `q` of a table read from node lines, with the edges `es`.
spec fn parsed_package(t: Seq<NodeLine>, es: Seq<EdgeLine>, q: int) -> PackageModel {
    PackageModel {
        id: t[q].id,
        name: t[q].name,
        version: node_version(t[q]),
        direct: t[q].direct,
        dependencies: sort_by_name(entry_names(t), edge_targets(entry_ids(t), es, q)),
    }
}

/// Where the ends of each edge were found: `tgt[q]` is the position of the target of
/// edge `q` (none when it is not a package) and, when it is one, `src[q]` that of its source.
spec fn links_resolved(ids: Seq<Seq<char>>, es: Seq<EdgeLine>, src: Seq<usize>, tgt: Seq<Option<usize>>, n: int) -> bool {
    &&& src.len() == n
    &&& tgt.len() == n
    &&& forall|q: int| 0 <= q < n ==> match #[trigger] tgt[q] {
        Some(x) => x as int == index_of(ids, es[q].to) && src[q] as int == index_of(ids, es[q].from) && index_of(ids, es[q].from) >= 0,
        None => index_of(ids, es[q].to) < 0,
    }
}

/// In a table ordered by id, each id is first found where it stands.
proof fn lemma_sorted_index(t: Seq<NodeLine>, k: int)
    requires
        forall|a: int, b: int| 0 <= a < b < t.len() ==> seq_lt(#[trigger] t[a].id, #[trigger] t[b].id),
        0 <= k < t.len(),
    ensures
        index_of(entry_ids(t), t[k].id) == k,
{
    let ids = entry_ids(t);
    lemma_index_of(ids, t[k].id);
    assert(ids[k] == t[k].id);
    let f = index_of(ids, t[k].id);
    if f < k {
        assert(ids[f] == t[f].id);
        lemma_seq_lt_irreflexive(t[k].id);
    }
}

/// A package is known exactly when the table has a position for it.
proof fn lemma_known(t: Seq<NodeLine>, ns: Seq<NodeLine>, id: Seq<char>)
    requires
        table_lists(t, ns),
    ensures
        node_map(ns).dom().contains(id) <==> index_of(entry_ids(t), id) >= 0,
{
    let ids = entry_ids(t);
    lemma_index_of(ids, id);
    if index_of(ids, id) >= 0 {
        let k = index_of(ids, id);
        assert(t[k].id == ids[k]);
    } else if node_map(ns).contains_key(id) {
        let k = choose|k: int| 0 <= k < t.len() && #[trigger] t[k].id == id;
        assert(ids[k] == id);
    }
}

/// The node lines of the data, kept in a table ordered by id, and its edge lines; or the
/// message for the first bad line.
fn read_table(input: &str) -> (r: Result<(Vec<NodeEntry>, Vec<EdgeEntry>), String>)
    ensures
        match r {
            Ok((table, edges)) => read_lines(lines_of(input@)) matches Ok(rec) && rec.1 == edge_lines(edges@)
                && table_lists(entries(table@), rec.0),
            Err(m) => read_lines(lines_of(input@)) == Err::<(Seq<NodeLine>, Seq<EdgeLine>), Seq<char>>(m@),
        },
{
    let cs = chars_of(input);
    let ls = lines(cs.as_slice());
    let ghost lsv = lines_of(input@);
    let mut table: Vec<NodeEntry> = Vec::new();
    let mut edges: Vec<EdgeEntry> = Vec::new();
    let ghost mut ns: Seq<NodeLine> = Seq::empty();
    let mut i: usize = 0;
    assert(lsv.take(0) == Seq::<Seq<char>>::empty());
    assert(edge_lines(edges@) == Seq::<EdgeLine>::empty());
    while i < ls.len()
        invariant
            lsv == lines_of(input@),
            ls@.len() == lsv.len(),
            forall|j: int| 0 <= j < ls@.len() ==> #[trigger] ls@[j]@ == lsv[j],
            i <= ls@.len(),
            table_lists(entries(table@), ns),
            read_lines(lsv.take(i as int)) == Ok::<(Seq<NodeLine>, Seq<EdgeLine>), Seq<char>>((ns, edge_lines(edges@))),
        decreases ls@.len() - i,
    {
        assert(lsv.take(i + 1).drop_last() == lsv.take(i as int));
        assert(lsv.take(i + 1).last() == lsv[i as int]);
        assert(ls@[i as int]@ == lsv[i as int]);
        let entry = classify_line(&ls[i]);
        match entry {
            LineEntry::Blank => {},
            LineEntry::Node(n) => {
                let ghost nl = n@;
                insert_entry(&mut table, n, Ghost(ns));
                proof {
                    ns = ns.push(nl);
                }
            },
            LineEntry::Edge(e) => {
                let ghost before = edges@;
                let ghost el = e@;
                edges.push(e);
                assert(edge_lines(edges@) == edge_lines(before).push(el));
            },
            LineEntry::BadFlag => {
                let mut m = chars_of("invalid direct-dependency flag on graph line ");
                let num = decimal_chars(i + 1);
                extend(&mut m, num.as_slice());
                proof {
                    lemma_read_lines_error(lsv, i + 1);
                }
                return Err(string_of(m.as_slice()));
            },
            LineEntry::Bad => {
                let mut m = chars_of("invalid dependency graph data on line ");
                let num = decimal_chars(i + 1);
                extend(&mut m, num.as_slice());
                proof {
                    lemma_read_lines_error(lsv, i + 1);
                }
                return Err(string_of(m.as_slice()));
            },
        }
        i = i + 1;
    }
    assert(lsv.take(lsv.len() as int) == lsv);
    Ok((table, edges))
}

/// Finds both ends of every edge, or the source of the first edge that leaves an unknown
/// package for a known one.
fn resolve_edges(table: &Vec<NodeEntry>, edges: &Vec<EdgeEntry>, Ghost(ns): Ghost<Seq<NodeLine>>) -> (r: Result<(Vec<usize>, Vec<Option<usize>>), Vec<char>>)
    requires
        table_lists(entries(table@), ns),
    ensures
        match r {
            Ok((src, tgt)) => edge_error(edge_lines(edges@), node_map(ns).dom()) is None
                && links_resolved(entry_ids(entries(table@)), edge_lines(edges@), src@, tgt@, edges@.len() as int),
            Err(from) => edge_error(edge_lines(edges@), node_map(ns).dom()) == Some(from@),
        },
{
    let ghost t = entries(table@);
    let ghost ids = entry_ids(t);
    let ghost es = edge_lines(edges@);
    let ghost known = node_map(ns).dom();
    let mut src: Vec<usize> = Vec::new();
    let mut tgt: Vec<Option<usize>> = Vec::new();
    let mut j: usize = 0;
    assert(es.take(0) == Seq::<EdgeLine>::empty());
    while j < edges.len()
        invariant
            t == entries(table@),
            ids == entry_ids(t),
            es == edge_lines(edges@),
            known == node_map(ns).dom(),
            table_lists(t, ns),
            j <= edges@.len(),
            edge_error(es.take(j as int), known) is None,
            links_resolved(ids, es, src@, tgt@, j as int),
        decreases edges@.len() - j,
    {
        assert(es.take(j + 1).drop_last() == es.take(j as int));
        assert(es.take(j + 1).last() == es[j as int]);
        assert(es[j as int] == edges@[j as int]@);
        proof {
            lemma_known(t, ns, es[j as int].to);
            lemma_known(t, ns, es[j as int].from);
        }
        match find_entry(table, &edges[j].to) {
            None => {
                src.push(0);
                tgt.push(None);
            },
            Some(x) => match find_entry(table, &edges[j].from) {
                None => {
                    proof {
                        lemma_edge_error(es, known, j + 1);
                    }
                    return Err(copy_chars(&edges[j].from));
                },
                Some(y) => {
                    src.push(y);
                    tgt.push(Some(x));
                },
            },
        }
        j = j + 1;
    }
    assert(es.take(es.len() as int) == es);
    Ok((src, tgt))
}

/// Positions of the targets of the edges that leave package `k`, in edge order.
fn targets_of(k: usize, src: &Vec<usize>, tgt: &Vec<Option<usize>>, Ghost(ids): Ghost<Seq<Seq<char>>>, Ghost(es): Ghost<Seq<EdgeLine>>) -> (r: Vec<usize>)
    requires
        k < ids.len(),
        index_of(ids, ids[k as int]) == k,
        links_resolved(ids, es, src@, tgt@, es.len() as int),
    ensures
        r@ == edge_targets(ids, es, k as int),
        forall|i: int| 0 <= i < r@.len() ==> #[trigger] r@[i] < ids.len(),
{
    let mut out: Vec<usize> = Vec::new();
    let mut j: usize = 0;
    assert(es.take(0) == Seq::<EdgeLine>::empty());
    while j < tgt.len()
        invariant
            k < ids.len(),
            index_of(ids, ids[k as int]) == k,
            links_resolved(ids, es, src@, tgt@, es.len() as int),
            j <= es.len(),
            out@ == edge_targets(ids, es.take(j as int), k as int),
            forall|i: int| 0 <= i < out@.len() ==> #[trigger] out@[i] < ids.len(),
        decreases es.len() - j,
    {
        assert(es.take(j + 1).drop_last() == es.take(j as int));
        assert(es.take(j + 1).last() == es[j as int]);
        let ghost e = es[j as int];
        proof {
            lemma_index_of(ids, e.to);
            lemma_index_of(ids, e.from);
        }
        assert(match tgt@[j as int] {
            Some(x) => x as int == index_of(ids, es[j as int].to) && src@[j as int] as int == index_of(ids, es[j as int].from) && index_of(ids, es[j as int].from) >= 0,
            None => index_of(ids, es[j as int].to) < 0,
        });
        match tgt[j] {
            Some(x) => {
                if src[j] == k {
                    out.push(x);
                } else {
                    assert(e.from != ids[k as int]);
                }
            },
            None => {},
        }
        j = j + 1;
    }
    assert(es.take(es.len() as int) == es);
    out
}

/// The names of the table's entries.
fn table_names(table: &Vec<NodeEntry>) -> (r: Vec<Vec<char>>)
    ensures
        views(r@) == entry_names(entries(table@)),
{
    let mut out: Vec<Vec<char>> = Vec::new();
    let mut k: usize = 0;
    while k < table.len()
        invariant
            k <= table@.len(),
            out@.len() == k,
            forall|q: int| 0 <= q < k ==> (#[trigger] out@[q])@ == table@[q].name@,
        decreases table@.len() - k,
    {
        out.push(copy_chars(&table[k].name));
        k = k + 1;
    }
    assert(views(out@) == entry_names(entries(table@)));
    out
}

/// The package at position `k` of the table.
fn package_at(
    table: &Vec<NodeEntry>,
    names: &Vec<Vec<char>>,
    k: usize,
    src: &Vec<usize>,
    tgt: &Vec<Option<usize>>,
    Ghost(es): Ghost<Seq<EdgeLine>>,
) -> (r: Package)
    requires
        k < table@.len(),
        views(names@) == entry_names(entries(table@)),
        forall|a: int, b: int| 0 <= a < b < table@.len() ==> seq_lt(#[trigger] table@[a].id@, #[trigger] table@[b].id@),
        links_resolved(entry_ids(entries(table@)), es, src@, tgt@, es.len() as int),
    ensures
        r@ == parsed_package(entries(table@), es, k as int),
        forall|i: int| 0 <= i < r@.dependencies.len() ==> #[trigger] r@.dependencies[i] < table@.len(),
{
    let ghost t = entries(table@);
    let ghost ids = entry_ids(t);
    proof {
        assert forall|a: int, b: int| 0 <= a < b < t.len() implies seq_lt(#[trigger] t[a].id, #[trigger] t[b].id) by {
            assert(t[a].id == table@[a].id@);
            assert(t[b].id == table@[b].id@);
        }
        lemma_sorted_index(t, k as int);
        assert(ids[k as int] == t[k as int].id);
        assert(names@.len() == t.len()) by {
            assert(views(names@).len() == names@.len());
        }
    }
    let ts = targets_of(k, src, tgt, Ghost(ids), Ghost(es));
    let deps = sort_by_name_exec(names, &ts);
    proof {
        lemma_sort_bounded(views(names@), ts@, t.len() as int);
    }
    let e = &table[k];
    let version = if e.version.len() == 0 {
        None
    } else {
        Some(copy_chars(&e.version))
    };
    Package { id: copy_chars(&e.id), name: copy_chars(&e.name), version, direct: e.direct, dependencies: deps }
}

/// The graph of a table and its edges describes the node and edge lines it was read from.
proof fn lemma_parsed_describes(g: Seq<PackageModel>, t: Seq<NodeLine>, ns: Seq<NodeLine>, es: Seq<EdgeLine>)
    requires
        table_lists(t, ns),
        g.len() == t.len(),
        forall|q: int| 0 <= q < g.len() ==> #[trigger] g[q] == parsed_package(t, es, q),
    ensures
        describes(g, ns, es),
        ids_sorted(g),
{
    assert(ids_of(g) == entry_ids(t));
    assert(names_of(g) == entry_names(t));
    assert forall|a: int, b: int| 0 <= a < b < g.len() implies seq_lt(#[trigger] g[a].id, #[trigger] g[b].id) by {
        assert(g[a] == parsed_package(t, es, a));
        assert(g[b] == parsed_package(t, es, b));
    }
    assert forall|id: Seq<char>| node_map(ns).contains_key(id) <==> exists|k: int| 0 <= k < g.len() && #[trigger] g[k].id == id by {
        if node_map(ns).contains_key(id) {
            let k = choose|k: int| 0 <= k < t.len() && #[trigger] t[k].id == id;
            assert(g[k] == parsed_package(t, es, k));
        }
        if exists|k: int| 0 <= k < g.len() && #[trigger] g[k].id == id {
            let k = choose|k: int| 0 <= k < g.len() && #[trigger] g[k].id == id;
            assert(g[k] == parsed_package(t, es, k));
            assert(t[k].id == id);
        }
    }
    assert forall|k: int| 0 <= k < g.len() implies {
        let n = #[trigger] node_map(ns)[g[k].id];
        &&& g[k].name == n.name
        &&& g[k].version == node_version(n)
        &&& g[k].direct == n.direct
    } by {
        assert(g[k] == parsed_package(t, es, k));
        assert(node_map(ns)[t[k].id] == t[k]);
    }
    assert forall|k: int| 0 <= k < g.len() implies #[trigger] g[k].dependencies == sort_by_name(names_of(g), edge_targets(ids_of(g), es, k)) by {
        assert(g[k] == parsed_package(t, es, k));
    }
}

impl Graph {
    /// Reads the graph data that Julia prints: `node` lines (id, name, version, whether the
    /// project depends on the package directly) and `edge` lines (the ids of a package and of
    /// one of its dependencies), with tab-separated fields. Blank lines are skipped, a later
    /// node line for an id replaces an earlier one, an edge to an unknown package is
    /// ignored, and an edge from one is an error. Each package's dependencies are ordered
    /// by name.
    pub fn parse(input: &str) -> (r: Result<Graph, String>)
        ensures
            r is Err <==> graph_error(input@) is Some,
            r matches Err(m) ==> graph_error(input@) == Some(m@),
            r matches Ok(g) ==> (read_lines(lines_of(input@)) matches Ok(rec) && describes(g@, rec.0, rec.1)),
    {
        let (table, edges) = match read_table(input) {
            Ok(te) => te,
            Err(m) => {
                return Err(m);
            },
        };
        let ghost rec = read_lines(lines_of(input@))->Ok_0;
        let ghost ns = rec.0;
        let ghost es = rec.1;
        let ghost t = entries(table@);
        let (src, tgt) = match resolve_edges(&table, &edges, Ghost(ns)) {
            Ok(st) => st,
            Err(from) => {
                let mut m = chars_of("dependency graph references unknown package '");
                extend(&mut m, from.as_slice());
                extend_str(&mut m, "'");
                return Err(string_of(m.as_slice()));
            },
        };
        let names = table_names(&table);
        proof {
            assert forall|a: int, b: int| 0 <= a < b < table@.len() implies seq_lt(#[trigger] table@[a].id@, #[trigger] table@[b].id@) by {
                assert(t[a].id == table@[a].id@);
                assert(t[b].id == table@[b].id@);
            }
        }
        let mut packages: Vec<Package> = Vec::new();
        let mut k: usize = 0;
        while k < table.len()
            invariant
                t == entries(table@),
                views(names@) == entry_names(t),
                forall|a: int, b: int| 0 <= a < b < table@.len() ==> seq_lt(#[trigger] table@[a].id@, #[trigger] table@[b].id@),
                links_resolved(entry_ids(t), es, src@, tgt@, es.len() as int),
                k <= table@.len(),
                packages@.len() == k,
                forall|q: int| 0 <= q < k ==> (#[trigger] packages@[q])@ == parsed_package(t, es, q),
                forall|q: int, i: int| 0 <= q < k && 0 <= i < packages@[q]@.dependencies.len() ==> #[trigger] packages@[q]@.dependencies[i] < table@.len(),
            decreases table@.len() - k,
        {
            let p = package_at(&table, &names, k, &src, &tgt, Ghost(es));
            packages.push(p);
            k = k + 1;
        }
        let ghost g = packages@.map_values(|p: Package| p@);
        proof {
            assert forall|q: int| 0 <= q < g.len() implies #[trigger] g[q] == parsed_package(t, es, q) by {
                assert(g[q] == packages@[q]@);
            }
            lemma_parsed_describes(g, t, ns, es);
            assert forall|q: int, i: int| 0 <= q < g.len() && 0 <= i < g[q].dependencies.len() implies #[trigger] g[q].dependencies[i] < g.len() by {
                assert(g[q] == packages@[q]@);
            }
        }
        Ok(Graph { packages })
    }
}


// ---------------------------------------------------------------------------
// Drawing the tree
// ---------------------------------------------------------------------------

/// How a package is shown: its name, and ` v<version>` when the version is known.
pub open spec fn label(p: PackageModel) -> Seq<char> {
    match p.version {
        Some(v) => p.name + " v"@ + v,
        None => p.name,
    }
}

/// The number of `false` entries.
pub open spec fn count_false(s: Seq<bool>) -> nat
    decreases s.len(),
{
    if s.len() == 0 {
        0
    } else {
        count_false(s.drop_last()) + if s.last() {
            0nat
        } else {
            1nat
        }
    }
}

/// Marking an unmarked entry leaves one fewer unmarked.
pub proof fn lemma_count_false_update(s: Seq<bool>, i: int)
    requires
        0 <= i < s.len(),
    ensures
        !s[i] ==> count_false(s.update(i, true)) + 1 == count_false(s),
        s[i] ==> count_false(s.update(i, true)) == count_false(s),
    decreases s.len(),
{
    if i < s.len() - 1 {
        lemma_count_false_update(s.drop_last(), i);
        assert(s.update(i, true).drop_last() == s.drop_last().update(i, true));
    } else {
        assert(s.update(i, true).drop_last() == s.drop_last());
    }
}

/// The connector drawn before a package that is not a root.
pub open spec fn branch(last: bool) -> Seq<char> {
    if last {
        "`-- "@
    } else {
        "|-- "@
    }
}

/// What the children of a package add to the prefix of their own children.
pub open spec fn indent(last: bool) -> Seq<char> {
    if last {
        "    "@
    } else {
        "|   "@
    }
}

/// The drawing of package `id` below `prefix`, and the visited marks afterwards.
/// A package already drawn under the same root is drawn once more, marked ` (*)`,
/// without its dependencies.
pub open spec fn render_pkg(
    g: Seq<PackageModel>,
    id: int,
    prefix: Seq<char>,
    last: bool,
    root: bool,
    visited: Seq<bool>,
) -> (Seq<char>, Seq<bool>)
    decreases count_false(visited), 1int, 0int,
{
    if !(0 <= id < g.len() && visited.len() == g.len()) {
        (Seq::empty(), visited)
    } else {
        let head = (if root {
            Seq::empty()
        } else {
            prefix + branch(last)
        }) + label(g[id]);
        if visited[id] {
            (head + " (*)\n"@, visited)
        } else {
            let marked = visited.update(id, true);
            let child_prefix = if root {
                Seq::empty()
            } else {
                prefix + indent(last)
            };
            proof {
                lemma_count_false_update(visited, id);
            }
            let rest = render_children(g, id, 0, child_prefix, marked);
            (head + "\n"@ + rest.0, rest.1)
        }
    }
}

/// The drawings of the dependencies of package `id`, from the `i`-th on.
pub open spec fn render_children(
    g: Seq<PackageModel>,
    id: int,
    i: int,
    prefix: Seq<char>,
    visited: Seq<bool>,
) -> (Seq<char>, Seq<bool>)
    decreases count_false(visited), 2int, (if 0 <= id < g.len() { g[id].dependencies.len() - i } else { 0 }),
{
    if !(0 <= id < g.len()) || i < 0 || i >= g[id].dependencies.len() {
        (Seq::empty(), visited)
    } else {
        let deps = g[id].dependencies;
        let first = render_pkg(g, deps[i] as int, prefix, i + 1 == deps.len(), false, visited);
        if count_false(first.1) <= count_false(visited) {
            let rest = render_children(g, id, i + 1, prefix, first.1);
            (first.0 + rest.0, rest.1)
        } else {
            first
        }
    }
}


/// Drawing never clears a visited mark nor changes how many packages there are.
pub proof fn lemma_render_pkg_marks(
    g: Seq<PackageModel>,
    id: int,
    prefix: Seq<char>,
    last: bool,
    root: bool,
    visited: Seq<bool>,
)
    ensures
        render_pkg(g, id, prefix, last, root, visited).1.len() == visited.len(),
        count_false(render_pkg(g, id, prefix, last, root, visited).1) <= count_false(visited),
    decreases count_false(visited), 1int, 0int,
{
    if 0 <= id < g.len() && visited.len() == g.len() && !visited[id] {
        lemma_count_false_update(visited, id);
        let child_prefix = if root {
            Seq::empty()
        } else {
            prefix + indent(last)
        };
        lemma_render_children_marks(g, id, 0, child_prefix, visited.update(id, true));
    }
}

/// Drawing the children of a package only marks more packages, and keeps the length of the marks.
pub proof fn lemma_render_children_marks(
    g: Seq<PackageModel>,
    id: int,
    i: int,
    prefix: Seq<char>,
    visited: Seq<bool>,
)
    ensures
        render_children(g, id, i, prefix, visited).1.len() == visited.len(),
        count_false(render_children(g, id, i, prefix, visited).1) <= count_false(visited),
    decreases count_false(visited), 2int, (if 0 <= id < g.len() { g[id].dependencies.len() - i } else { 0 }),
{
    if 0 <= id < g.len() && 0 <= i < g[id].dependencies.len() {
        let deps = g[id].dependencies;
        lemma_render_pkg_marks(g, deps[i] as int, prefix, i + 1 == deps.len(), false, visited);
        let first = render_pkg(g, deps[i] as int, prefix, i + 1 == deps.len(), false, visited);
        lemma_render_children_marks(g, id, i + 1, prefix, first.1);
    }
}

/// Position `i` of `t` starts a line.
pub open spec fn line_start(t: Seq<char>, i: int) -> bool {
    0 <= i < t.len() && (i == 0 || t[i - 1] == '\n')
}

/// `q` stands in `t` from position `i` on.
pub open spec fn stands_at(t: Seq<char>, i: int, q: Seq<char>) -> bool {
    i + q.len() <= t.len() && t.subrange(i, i + q.len()) == q
}

/// Every line of `t` begins with `q`.
pub open spec fn lines_begin_with(t: Seq<char>, q: Seq<char>) -> bool {
    forall|i: int| #[trigger] line_start(t, i) ==> stands_at(t, i, q)
}

/// `t` is empty or ends with a line break.
pub open spec fn ends_line(t: Seq<char>) -> bool {
    t.len() == 0 || t.last() == '\n'
}

/// `s` holds no line break.
pub open spec fn no_break(s: Seq<char>) -> bool {
    forall|i: int| 0 <= i < s.len() ==> s[i] != '\n'
}

/// No package is shown with a line break in its name or version.
pub open spec fn labels_one_line(g: Seq<PackageModel>) -> bool {
    forall|k: int| 0 <= k < g.len() ==> no_break(#[trigger] label(g[k]))
}

proof fn lemma_no_break_concat(a: Seq<char>, b: Seq<char>)
    requires
        no_break(a),
        no_break(b),
    ensures
        no_break(a + b),
{
    assert forall|i: int| 0 <= i < (a + b).len() implies (a + b)[i] != '\n' by {
        if i >= a.len() {
            assert((a + b)[i] == b[i - a.len()]);
        } else {
            assert((a + b)[i] == a[i]);
        }
    }
}

/// One line `q + x`, ended by a line break, begins with `q`.
proof fn lemma_single_line(q: Seq<char>, x: Seq<char>)
    requires
        no_break(q + x),
    ensures
        lines_begin_with(q + x + seq!['\n'], q),
        ends_line(q + x + seq!['\n']),
{
    let t = q + x + seq!['\n'];
    assert forall|i: int| #[trigger] line_start(t, i) implies stands_at(t, i, q) by {
        if i > 0 {
            assert(t[i - 1] == (q + x)[i - 1]);
        }
        assert(t.subrange(0, q.len() as int) == q);
    }
}

/// Lines one after the other that all begin with `q`.
proof fn lemma_lines_concat_begin(a: Seq<char>, b: Seq<char>, q: Seq<char>)
    requires
        lines_begin_with(a, q),
        ends_line(a),
        lines_begin_with(b, q),
        ends_line(b),
    ensures
        lines_begin_with(a + b, q),
        ends_line(a + b),
{
    let t = a + b;
    assert forall|i: int| #[trigger] line_start(t, i) implies stands_at(t, i, q) by {
        if i < a.len() {
            if i > 0 {
                assert(t[i - 1] == a[i - 1]);
            }
            assert(line_start(a, i));
            assert(t.subrange(i, i + q.len()) == a.subrange(i, i + q.len()));
        } else {
            let j = i - a.len();
            if j > 0 {
                assert(t[i - 1] == b[j - 1]);
            }
            assert(line_start(b, j));
            assert(t.subrange(i, i + q.len()) == b.subrange(j, j + q.len()));
        }
    }
    if b.len() == 0 {
        assert(t == a);
    } else {
        assert(t.last() == b.last());
    }
}

/// Lines that begin with `q + r` begin with `q`.
proof fn lemma_lines_begin_weaken(t: Seq<char>, q: Seq<char>, r: Seq<char>)
    requires
        lines_begin_with(t, q + r),
    ensures
        lines_begin_with(t, q),
{
    assert forall|i: int| #[trigger] line_start(t, i) implies stands_at(t, i, q) by {
        assert(stands_at(t, i, q + r));
        assert(t.subrange(i, i + q.len()) == t.subrange(i, i + (q + r).len()).subrange(0, q.len() as int));
        assert((q + r).subrange(0, q.len() as int) == q);
    }
}

proof fn lemma_tree_pieces_one_line()
    ensures
        no_break(branch(true)),
        no_break(branch(false)),
        no_break(indent(true)),
        no_break(indent(false)),
        no_break(" (*)"@),
        " (*)\n"@ == " (*)"@ + seq!['\n'],
        "\n"@ == seq!['\n'],
{
    reveal_strlit("`-- ");
    reveal_strlit("|-- ");
    reveal_strlit("    ");
    reveal_strlit("|   ");
    reveal_strlit(" (*)");
    reveal_strlit(" (*)\n");
    reveal_strlit("\n");
}

/// Every line drawn for a package that is not a root begins with its prefix.
proof fn lemma_pkg_lines(g: Seq<PackageModel>, id: int, p: Seq<char>, last: bool, visited: Seq<bool>)
    requires
        labels_one_line(g),
        no_break(p),
    ensures
        lines_begin_with(render_pkg(g, id, p, last, false, visited).0, p),
        ends_line(render_pkg(g, id, p, last, false, visited).0),
    decreases count_false(visited), 1int, 0int,
{
    if 0 <= id < g.len() && visited.len() == g.len() {
        lemma_tree_pieces_one_line();
        assert(no_break(label(g[id])));
        lemma_no_break_concat(branch(last), label(g[id]));
        lemma_no_break_concat(p, branch(last) + label(g[id]));
        assert(p + (branch(last) + label(g[id])) == p + branch(last) + label(g[id]));
        let head = p + branch(last) + label(g[id]);
        if visited[id] {
            lemma_no_break_concat(branch(last) + label(g[id]), " (*)"@);
            lemma_no_break_concat(p, branch(last) + label(g[id]) + " (*)"@);
            lemma_single_line(p, branch(last) + label(g[id]) + " (*)"@);
            assert(head + " (*)\n"@ == p + (branch(last) + label(g[id]) + " (*)"@) + seq!['\n']);
        } else {
            let marked = visited.update(id, true);
            lemma_count_false_update(visited, id);
            let q = p + indent(last);
            lemma_no_break_concat(p, indent(last));
            lemma_children_lines(g, id, 0, q, marked);
            let rest = render_children(g, id, 0, q, marked).0;
            lemma_lines_begin_weaken(rest, p, indent(last));
            lemma_single_line(p, branch(last) + label(g[id]));
            assert(head + "\n"@ == p + (branch(last) + label(g[id])) + seq!['\n']);
            lemma_lines_concat_begin(head + "\n"@, rest, p);
        }
    }
}

/// Every line drawn for the dependencies of a package begins with the prefix they are
/// drawn with.
proof fn lemma_children_lines(g: Seq<PackageModel>, id: int, i: int, q: Seq<char>, visited: Seq<bool>)
    requires
        labels_one_line(g),
        no_break(q),
    ensures
        lines_begin_with(render_children(g, id, i, q, visited).0, q),
        ends_line(render_children(g, id, i, q, visited).0),
    decreases count_false(visited), 2int, (if 0 <= id < g.len() { g[id].dependencies.len() - i } else { 0 }),
{
    if 0 <= id < g.len() && 0 <= i < g[id].dependencies.len() {
        let deps = g[id].dependencies;
        lemma_pkg_lines(g, deps[i] as int, q, i + 1 == deps.len(), visited);
        let first = render_pkg(g, deps[i] as int, q, i + 1 == deps.len(), false, visited);
        if count_false(first.1) <= count_false(visited) {
            lemma_children_lines(g, id, i + 1, q, first.1);
            let rest = render_children(g, id, i + 1, q, first.1);
            lemma_lines_concat_begin(first.0, rest.0, q);
        }
    }
}

/// In the drawn tree, everything beneath a package is drawn one step further in: after the
/// package's own line, each line begins with the package's prefix and then `    ` when the
/// package is the last of its siblings, else `|   `. So a package at depth `d` below its
/// direct dependency is indented by `4 * (d - 1)` characters before its connector.
pub proof fn lemma_tree_nesting(g: Seq<PackageModel>, id: int, prefix: Seq<char>, last: bool, visited: Seq<bool>)
    requires
        labels_one_line(g),
        no_break(prefix),
        0 <= id < g.len(),
        visited.len() == g.len(),
        !visited[id],
    ensures
        ({
            let t = render_pkg(g, id, prefix, last, false, visited).0;
            let head = prefix + branch(last) + label(g[id]) + "\n"@;
            &&& t.take(head.len() as int) == head
            &&& lines_begin_with(t.skip(head.len() as int), prefix + indent(last))
        }),
{
    let marked = visited.update(id, true);
    lemma_count_false_update(visited, id);
    lemma_tree_pieces_one_line();
    lemma_no_break_concat(prefix, indent(last));
    lemma_children_lines(g, id, 0, prefix + indent(last), marked);
    let t = render_pkg(g, id, prefix, last, false, visited).0;
    let head = prefix + branch(last) + label(g[id]) + "\n"@;
    let rest = render_children(g, id, 0, prefix + indent(last), marked).0;
    assert(t == head + rest);
    assert(t.take(head.len() as int) == head);
    assert(t.skip(head.len() as int) == rest);
}

impl Package {
    fn label_chars(&self) -> (r: Vec<char>)
        ensures
            r@ == label(self@),
    {
        let mut out = copy_chars(&self.name);
        match &self.version {
            Some(v) => {
                extend_str(&mut out, " v");
                extend(&mut out, v.as_slice());
            },
            None => {},
        }
        out
    }

    /// How the package is shown: its name, and ` v<version>` when the version is known.
    pub fn label(&self) -> (r: String)
        ensures
            r@ == label(self@),
    {
        let l = self.label_chars();
        string_of(l.as_slice())
    }
}

impl Graph {

    fn label_of(&self, id: usize) -> (r: Vec<char>)
        requires
            id < self@.len(),
        ensures
            r@ == label(self@[id as int]),
    {
        let p = &self.packages[id];
        assert(self@[id as int] == p@);
        p.label_chars()
    }

    fn render_package(
        &self,
        id: usize,
        prefix: &Vec<char>,
        last: bool,
        root: bool,
        visited: &mut Vec<bool>,
        output: &mut Vec<char>,
    )
        requires
            id < self@.len(),
            old(visited)@.len() == self@.len(),
        ensures
            final(visited)@ == render_pkg(self@, id as int, prefix@, last, root, old(visited)@).1,
            final(output)@ == old(output)@ + render_pkg(self@, id as int, prefix@, last, root, old(visited)@).0,
        decreases count_false(old(visited)@), 1int, 0int,
    {
        proof {
            use_type_invariant(self);
        }
        let ghost g = self@;
        let ghost v0 = visited@;
        let ghost o0 = output@;
        if !root {
            extend(output, prefix.as_slice());
            if last {
                extend_str(output, "`-- ");
            } else {
                extend_str(output, "|-- ");
            }
        }
        let lab = self.label_of(id);
        extend(output, lab.as_slice());
        let ghost head = (if root {
            Seq::empty()
        } else {
            prefix@ + branch(last)
        }) + label(g[id as int]);
        assert(output@ == o0 + head);
        if visited[id] {
            extend_str(output, " (*)\n");
            return;
        }
        visited.set(id, true);
        extend_str(output, "\n");
        let mut child_prefix: Vec<char> = Vec::new();
        if !root {
            extend(&mut child_prefix, prefix.as_slice());
            if last {
                extend_str(&mut child_prefix, "    ");
            } else {
                extend_str(&mut child_prefix, "|   ");
            }
        }
        let ghost marked = visited@;
        let ghost whole = render_children(g, id as int, 0, child_prefix@, marked);
        let ghost base = output@;
        proof {
            lemma_count_false_update(v0, id as int);
            assert(marked == v0.update(id as int, true));
        }
        let n = self.packages[id].dependencies.len();
        assert(g[id as int].dependencies == self.packages@[id as int]@.dependencies);
        let mut i: usize = 0;
        while i < n
            invariant
                g == self@,
                id < g.len(),
                n == g[id as int].dependencies.len(),
                i <= n,
                visited@.len() == g.len(),
                count_false(visited@) < count_false(v0),
                count_false(v0) == count_false(old(visited)@),
                output@ == base + (whole.0.take(output@.len() - base.len())),
                base.len() <= output@.len(),
                whole.0 == output@.subrange(base.len() as int, output@.len() as int) + render_children(g, id as int, i as int, child_prefix@, visited@).0,
                whole.1 == render_children(g, id as int, i as int, child_prefix@, visited@).1,
            decreases n - i,
        {
            proof {
                use_type_invariant(self);
            }
            let dep = self.packages[id].dependencies[i];
            assert(dep == g[id as int].dependencies[i as int]);
            assert(dep < g.len());
            let ghost vi = visited@;
            let ghost oi = output@;
            proof {
                lemma_render_pkg_marks(g, dep as int, child_prefix@, i + 1 == n, false, vi);
            }
            self.render_package(dep, &child_prefix, i + 1 == n, false, visited, output);
            proof {
                let first = render_pkg(g, dep as int, child_prefix@, i + 1 == n, false, vi);
                assert(render_children(g, id as int, i as int, child_prefix@, vi) == (first.0 + render_children(g, id as int, i + 1, child_prefix@, first.1).0, render_children(g, id as int, i + 1, child_prefix@, first.1).1));
                assert(output@.subrange(base.len() as int, output@.len() as int) == oi.subrange(base.len() as int, oi.len() as int) + first.0);
            }
            i = i + 1;
        }
        assert(output@ == base + whole.0);
    }
}


/// Positions of the packages the project depends on directly, in id order.
pub open spec fn direct_positions(g: Seq<PackageModel>) -> Seq<usize>
    decreases g.len(),
{
    if g.len() == 0 {
        Seq::empty()
    } else {
        let r = direct_positions(g.drop_last());
        if g.last().direct {
            r.push((g.len() - 1) as usize)
        } else {
            r
        }
    }
}

/// The direct dependencies in the order they are drawn: by name.
pub open spec fn root_order(g: Seq<PackageModel>) -> Seq<usize> {
    sort_by_name(names_of(g), direct_positions(g))
}

/// No package visited yet.
pub open spec fn unvisited(n: nat) -> Seq<bool> {
    Seq::new(n, |i: int| false)
}

/// The trees of the first `n` roots, separated by blank lines.
pub open spec fn root_trees(g: Seq<PackageModel>, roots: Seq<usize>, n: int) -> Seq<char>
    decreases n,
{
    if n <= 0 {
        Seq::empty()
    } else {
        root_trees(g, roots, n - 1) + (if n > 1 {
            "\n"@
        } else {
            Seq::empty()
        }) + render_pkg(g, roots[n - 1] as int, Seq::empty(), true, true, unvisited(g.len())).0
    }
}

/// The whole tree text: one tree per direct dependency, or a note that there is none.
pub open spec fn tree_text(g: Seq<PackageModel>) -> Seq<char> {
    let roots = root_order(g);
    if roots.len() == 0 {
        "No project dependencies.\n"@
    } else {
        root_trees(g, roots, roots.len() as int)
    }
}

proof fn lemma_direct_positions(g: Seq<PackageModel>)
    ensures
        forall|i: int| 0 <= i < direct_positions(g).len() ==> #[trigger] direct_positions(g)[i] < g.len(),
    decreases g.len(),
{
    if g.len() > 0 {
        lemma_direct_positions(g.drop_last());
        let r = direct_positions(g.drop_last());
        if g.last().direct {
            assert forall|i: int| 0 <= i < r.len() + 1 implies #[trigger] r.push((g.len() - 1) as usize)[i] < g.len() by {
                if i < r.len() {
                    assert(r.push((g.len() - 1) as usize)[i] == r[i]);
                }
            }
        }
    }
}

impl Graph {
    fn name_list(&self) -> (r: Vec<Vec<char>>)
        ensures
            views(r@) == names_of(self@),
    {
        let mut out: Vec<Vec<char>> = Vec::new();
        let mut k: usize = 0;
        while k < self.packages.len()
            invariant
                k <= self@.len(),
                out@.len() == k,
                forall|q: int| 0 <= q < k ==> (#[trigger] out@[q])@ == self@[q].name,
            decreases self@.len() - k,
        {
            assert(self@[k as int] == self.packages@[k as int]@);
            out.push(copy_chars(&self.packages[k].name));
            k = k + 1;
        }
        assert(views(out@) == names_of(self@));
        out
    }

    fn direct_list(&self) -> (r: Vec<usize>)
        ensures
            r@ == direct_positions(self@),
    {
        let mut out: Vec<usize> = Vec::new();
        let mut k: usize = 0;
        while k < self.packages.len()
            invariant
                k <= self@.len(),
                out@ == direct_positions(self@.take(k as int)),
            decreases self@.len() - k,
        {
            assert(self@.take(k + 1).drop_last() == self@.take(k as int));
            assert(self@[k as int] == self.packages@[k as int]@);
            if self.packages[k].direct {
                out.push(k);
            }
            k = k + 1;
        }
        assert(self@.take(self@.len() as int) == self@);
        out
    }

    /// The roots in drawing order.
    fn roots(&self) -> (r: Vec<usize>)
        ensures
            r@ == root_order(self@),
            forall|i: int| 0 <= i < r@.len() ==> #[trigger] r@[i] < self@.len(),
    {
        let names = self.name_list();
        let direct = self.direct_list();
        proof {
            lemma_direct_positions(self@);
            assert(views(names@).len() == names@.len());
            assert(names_of(self@).len() == self@.len());
            assert(names@.len() == self@.len());
        }
        let r = sort_by_name_exec(&names, &direct);
        proof {
            lemma_sort_bounded(names_of(self@), direct_positions(self@), self@.len() as int);
        }
        r
    }

    /// Draws every direct dependency with the packages below it. A package shown again
    /// beneath the same direct dependency is marked `(*)` and not expanded.
    pub fn render_tree(&self) -> (r: String)
        ensures
            r@ == tree_text(self@),
    {
        let roots = self.roots();
        if roots.len() == 0 {
            return String::from_str("No project dependencies.\n");
        }
        let mut output: Vec<char> = Vec::new();
        let mut i: usize = 0;
        while i < roots.len()
            invariant
                roots@ == root_order(self@),
                forall|j: int| 0 <= j < roots@.len() ==> #[trigger] roots@[j] < self@.len(),
                i <= roots@.len(),
                output@ == root_trees(self@, roots@, i as int),
            decreases roots@.len() - i,
        {
            if i > 0 {
                extend_str(&mut output, "\n");
            }
            let mut visited: Vec<bool> = Vec::new();
            let mut k: usize = 0;
            while k < self.packages.len()
                invariant
                    k <= self@.len(),
                    visited@ == unvisited(k as nat),
                decreases self@.len() - k,
            {
                visited.push(false);
                k = k + 1;
                assert(visited@ == unvisited(k as nat));
            }
            let empty: Vec<char> = Vec::new();
            assert(roots@[i as int] < self@.len());
            self.render_package(roots[i], &empty, true, true, &mut visited, &mut output);
            i = i + 1;
        }
        string_of(output.as_slice())
    }
}


// ---------------------------------------------------------------------------
// Explaining why a package is installed
// ---------------------------------------------------------------------------

/// Positions of the packages whose names equal `name` ignoring ASCII case, in id order.
pub open spec fn case_matches(g: Seq<PackageModel>, name: Seq<char>) -> Seq<usize>
    decreases g.len(),
{
    if g.len() == 0 {
        Seq::empty()
    } else {
        let r = case_matches(g.drop_last(), name);
        if eq_ignore_case(g.last().name, name) {
            r.push((g.len() - 1) as usize)
        } else {
            r
        }
    }
}

/// The package a requested name stands for: the first with exactly that name, else the
/// only one with that name ignoring ASCII case.
pub open spec fn lookup(g: Seq<PackageModel>, name: Seq<char>) -> Result<int, Seq<char>> {
    if index_of(names_of(g), name) >= 0 {
        Ok(index_of(names_of(g), name))
    } else {
        let m = case_matches(g, name);
        if m.len() == 1 {
            Ok(m[0] as int)
        } else if m.len() == 0 {
            Err("package '"@ + name + "' is not installed"@)
        } else {
            Err("package name '"@ + name + "' is ambiguous"@)
        }
    }
}

/// `b` is among the dependencies of `a`.
pub open spec fn depends_on(g: Seq<PackageModel>, a: int, b: int) -> bool {
    0 <= a < g.len() && g[a].dependencies.contains(b as usize)
}

/// A chain of packages that starts at a direct dependency of the project and goes from
/// each package to one of its dependencies.
pub open spec fn root_path(g: Seq<PackageModel>, p: Seq<usize>) -> bool {
    &&& p.len() >= 1
    &&& forall|i: int| 0 <= i < p.len() ==> #[trigger] p[i] < g.len()
    &&& g[p[0] as int].direct
    &&& forall|i: int| 0 <= i < p.len() - 1 ==> depends_on(g, #[trigger] p[i] as int, p[i + 1] as int)
}

/// Package `t` can be reached from the project.
pub open spec fn reachable(g: Seq<PackageModel>, t: int) -> bool {
    exists|p: Seq<usize>| #[trigger] root_path(g, p) && p.last() == t
}

/// `p` is a chain from the project to `t` and no such chain is shorter.
pub open spec fn shortest_root_path(g: Seq<PackageModel>, p: Seq<usize>, t: int) -> bool {
    &&& root_path(g, p)
    &&& p.last() == t
    &&& forall|q: Seq<usize>| #[trigger] root_path(g, q) && q.last() == t ==> p.len() <= q.len()
}

/// `s` repeated `n` times.
pub open spec fn repeat(s: Seq<char>, n: int) -> Seq<char>
    decreases n,
{
    if n <= 0 {
        Seq::empty()
    } else {
        repeat(s, n - 1) + s
    }
}

/// The first `n` steps of a chain, each one indented one level further.
pub open spec fn chain_lines(g: Seq<PackageModel>, p: Seq<usize>, n: int) -> Seq<char>
    decreases n,
{
    if n <= 0 {
        Seq::empty()
    } else {
        chain_lines(g, p, n - 1) + repeat("    "@, n - 1) + "`-- "@ + label(g[p[n - 1] as int]) + "\n"@
    }
}

/// The explanation given for package `t` along the chain `p`.
pub open spec fn explanation(g: Seq<PackageModel>, t: int, p: Seq<usize>) -> Seq<char> {
    if p.len() == 1 {
        label(g[t]) + " is a direct dependency of this project.\n"@
    } else {
        label(g[t]) + " is installed because:\n\nProject\n"@ + chain_lines(g, p, p.len() as int)
    }
}

/// The path that the breadth-first search records for `v`: back along the parents.
pub open spec fn parent_chain(par: Seq<Option<usize>>, lvl: Seq<int>, v: usize) -> Seq<usize>
    decreases (if v < lvl.len() && lvl[v as int] > 0 { lvl[v as int] } else { 0 }),
{
    if !(v < lvl.len() && v < par.len()) || lvl[v as int] <= 0 {
        seq![v]
    } else {
        match par[v as int] {
            Some(u) => if (u as int) < lvl.len() && 0 <= lvl[u as int] < lvl[v as int] {
                parent_chain(par, lvl, u).push(v)
            } else {
                seq![v]
            },
            None => seq![v],
        }
    }
}

/// What the search knows of `v` once it has found it.
pub open spec fn parent_ok(g: Seq<PackageModel>, disc: Seq<bool>, par: Seq<Option<usize>>, lvl: Seq<int>, v: int) -> bool {
    &&& lvl[v] >= 0
    &&& if lvl[v] == 0 {
        g[v].direct && par[v] is None
    } else {
        &&& par[v] is Some
        &&& (par[v]->0 as int) < g.len()
        &&& disc[par[v]->0 as int]
        &&& lvl[par[v]->0 as int] == lvl[v] - 1
        &&& depends_on(g, par[v]->0 as int, v)
    }
}

#[verifier::opaque]
/// The invariant of the breadth-first search: `q` is the queue (its first `h` entries
/// handled), `disc` marks what was queued, `par` the parents and `lvl` the distances.
pub open spec fn search_ok(
    g: Seq<PackageModel>,
    q: Seq<usize>,
    h: int,
    disc: Seq<bool>,
    par: Seq<Option<usize>>,
    lvl: Seq<int>,
) -> bool {
    &&& g.len() <= usize::MAX
    &&& graph_wf(g)
    &&& disc.len() == g.len()
    &&& par.len() == g.len()
    &&& lvl.len() == g.len()
    &&& 0 <= h <= q.len()
    &&& forall|j: int| 0 <= j < q.len() ==> #[trigger] q[j] < g.len()
    &&& forall|v: int| 0 <= v < g.len() ==> (#[trigger] disc[v] <==> q.contains(v as usize))
    &&& forall|a: int, b: int| 0 <= a <= b < q.len() ==> lvl[#[trigger] q[a] as int] <= lvl[#[trigger] q[b] as int]
    &&& forall|a: int, b: int| h <= a < q.len() && h <= b < q.len() ==> lvl[#[trigger] q[b] as int] <= lvl[#[trigger] q[a] as int] + 1
    &&& forall|j: int, x: int| 0 <= j < h && 0 <= x < g[q[j] as int].dependencies.len() ==> disc[#[trigger] g[#[trigger] q[j] as int].dependencies[x] as int]
    &&& forall|v: int| 0 <= v < g.len() && #[trigger] g[v].direct ==> disc[v]
    &&& forall|v: int| 0 <= v < g.len() && #[trigger] disc[v] ==> parent_ok(g, disc, par, lvl, v)
    &&& forall|v: int, p: Seq<usize>| 0 <= v < g.len() && #[trigger] disc[v] && #[trigger] root_path(g, p) && p.last() == v ==> lvl[v] + 1 <= p.len()
}


/// Position of the first `x` in `s`, or -1.
pub open spec fn pos_of(s: Seq<usize>, x: usize) -> int
    decreases s.len(),
{
    if s.len() == 0 {
        -1
    } else {
        let f = pos_of(s.drop_last(), x);
        if f >= 0 {
            f
        } else if s.last() == x {
            s.len() - 1
        } else {
            -1
        }
    }
}

/// What `pos_of` gives: a position holding `x`, the first one, or -1 when there is none.
pub proof fn lemma_pos_of(s: Seq<usize>, x: usize)
    ensures
        -1 <= pos_of(s, x) < s.len(),
        pos_of(s, x) >= 0 ==> s[pos_of(s, x)] == x,
        forall|j: int| 0 <= j < s.len() && s[j] == x ==> 0 <= pos_of(s, x) <= j,
    decreases s.len(),
{
    if s.len() > 0 {
        lemma_pos_of(s.drop_last(), x);
        assert forall|j: int| 0 <= j < s.len() - 1 implies s.drop_last()[j] == s[j] by {}
    }
}

/// `x` first occurs in `s` at `i`.
proof fn lemma_pos_of_first(s: Seq<usize>, x: usize, i: int)
    requires
        0 <= i < s.len(),
        s[i] == x,
        forall|j: int| 0 <= j < i ==> s[j] != x,
    ensures
        pos_of(s, x) == i,
{
    lemma_pos_of(s, x);
}

/// Where the steps of a chain stand: the first is its direct dependency's place among the
/// direct dependencies in name order, each later one the place of the package among the
/// dependencies of the one before.
pub open spec fn chain_key(g: Seq<PackageModel>, p: Seq<usize>) -> Seq<int> {
    Seq::new(
        p.len(),
        |i: int|
            if i == 0 {
                pos_of(root_order(g), p[0])
            } else {
                pos_of(g[p[i - 1] as int].dependencies, p[i])
            },
    )
}

/// Lexicographic order on keys of the same length.
pub open spec fn lex_lt(a: Seq<int>, b: Seq<int>) -> bool
    decreases a.len(),
{
    &&& a.len() == b.len()
    &&& a.len() > 0
    &&& (lex_lt(a.drop_last(), b.drop_last()) || (a.drop_last() == b.drop_last() && a.last() < b.last()))
}

/// `a` comes before `b` or equals it.
pub open spec fn key_le(a: Seq<int>, b: Seq<int>) -> bool {
    a == b || lex_lt(a, b)
}

/// The chain that `explain` follows to `t`: a shortest chain from the project whose key is
/// the least, so it starts at the first direct dependency by name from which `t` is that
/// close, and at each step takes the first dependency that keeps it so.
pub open spec fn first_shortest_path(g: Seq<PackageModel>, p: Seq<usize>, t: int) -> bool {
    &&& shortest_root_path(g, p, t)
    &&& forall|q: Seq<usize>| #[trigger] shortest_root_path(g, q, t) ==> key_le(chain_key(g, p), chain_key(g, q))
}

proof fn lemma_lex_irreflexive(a: Seq<int>)
    ensures
        !lex_lt(a, a),
    decreases a.len(),
{
    if a.len() > 0 {
        lemma_lex_irreflexive(a.drop_last());
    }
}

proof fn lemma_lex_transitive(a: Seq<int>, b: Seq<int>, c: Seq<int>)
    requires
        lex_lt(a, b),
        lex_lt(b, c),
    ensures
        lex_lt(a, c),
    decreases a.len(),
{
    if lex_lt(a.drop_last(), b.drop_last()) && lex_lt(b.drop_last(), c.drop_last()) {
        lemma_lex_transitive(a.drop_last(), b.drop_last(), c.drop_last());
    }
}

proof fn lemma_lex_lt_le(a: Seq<int>, b: Seq<int>, c: Seq<int>)
    requires
        lex_lt(a, b),
        key_le(b, c),
    ensures
        lex_lt(a, c),
{
    if b != c {
        lemma_lex_transitive(a, b, c);
    }
}

proof fn lemma_lex_antisymmetric(a: Seq<int>, b: Seq<int>)
    requires
        key_le(a, b),
        key_le(b, a),
    ensures
        a == b,
{
    if a != b {
        lemma_lex_transitive(a, b, a);
        lemma_lex_irreflexive(a);
    }
}

proof fn lemma_lex_push(a: Seq<int>, b: Seq<int>, x: int, y: int)
    requires
        a.len() == b.len(),
        lex_lt(a, b) || (a == b && x < y),
    ensures
        lex_lt(a.push(x), b.push(y)),
{
    assert(a.push(x).drop_last() == a);
    assert(b.push(y).drop_last() == b);
}

proof fn lemma_key_le_push(a: Seq<int>, b: Seq<int>, x: int)
    requires
        key_le(a, b),
    ensures
        key_le(a.push(x), b.push(x)),
{
    if a != b {
        lemma_lex_push(a, b, x, x);
    }
}

/// The key of a chain one step longer.
proof fn lemma_chain_key_push(g: Seq<PackageModel>, p: Seq<usize>, v: usize)
    requires
        p.len() >= 1,
    ensures
        chain_key(g, p.push(v)) == chain_key(g, p).push(pos_of(g[p.last() as int].dependencies, v)),
{
    let a = chain_key(g, p.push(v));
    let b = chain_key(g, p).push(pos_of(g[p.last() as int].dependencies, v));
    assert forall|i: int| 0 <= i < a.len() implies a[i] == b[i] by {
        if i > 0 && i < p.len() {
            assert(p.push(v)[i - 1] == p[i - 1]);
            assert(p.push(v)[i] == p[i]);
        }
        if i == 0 {
            assert(p.push(v)[0] == p[0]);
        }
    }
    assert(a == b);
}

/// A chain is determined by its key.
proof fn lemma_chain_key_injective(g: Seq<PackageModel>, p: Seq<usize>, q: Seq<usize>)
    requires
        g.len() <= usize::MAX,
        p.len() >= 1,
        p.len() == q.len(),
        root_path(g, p),
        root_path(g, q),
        chain_key(g, p) == chain_key(g, q),
    ensures
        p == q,
{
    assert forall|i: int| 0 <= i < p.len() implies p[i] == q[i] by {
        lemma_chain_key_step(g, p, q, i);
    }
    assert(p == q);
}

proof fn lemma_chain_key_step(g: Seq<PackageModel>, p: Seq<usize>, q: Seq<usize>, i: int)
    requires
        g.len() <= usize::MAX,
        p.len() == q.len(),
        0 <= i < p.len(),
        root_path(g, p),
        root_path(g, q),
        chain_key(g, p) == chain_key(g, q),
    ensures
        p[i] == q[i],
    decreases i,
{
    assert(chain_key(g, p)[i] == chain_key(g, q)[i]);
    if i == 0 {
        assert(p[0] < g.len() && q[0] < g.len());
        let ro = root_order(g);
        lemma_direct_in_root_order(g, p[0]);
        lemma_direct_in_root_order(g, q[0]);
        let j = choose|j: int| 0 <= j < ro.len() && ro[j] == p[0];
        let k = choose|k: int| 0 <= k < ro.len() && ro[k] == q[0];
        lemma_pos_of(ro, p[0]);
        lemma_pos_of(ro, q[0]);
        assert(chain_key(g, p)[0] == pos_of(ro, p[0]));
        assert(chain_key(g, q)[0] == pos_of(ro, q[0]));
    } else {
        lemma_chain_key_step(g, p, q, i - 1);
        assert(depends_on(g, p[i - 1] as int, p[i] as int));
        assert(depends_on(g, q[i - 1] as int, q[i] as int));
        let deps = g[p[i - 1] as int].dependencies;
        let j = choose|j: int| 0 <= j < deps.len() && deps[j] == p[i];
        let k = choose|k: int| 0 <= k < deps.len() && deps[k] == q[i];
        lemma_pos_of(deps, p[i]);
        lemma_pos_of(deps, q[i]);
        assert(g[q[i - 1] as int].dependencies == deps);
        assert(chain_key(g, p)[i] == pos_of(deps, p[i]));
        assert(chain_key(g, q)[i] == pos_of(deps, q[i]));
    }
}

/// A direct dependency has a place among the direct dependencies in name order.
proof fn lemma_direct_in_root_order(g: Seq<PackageModel>, r: usize)
    requires
        g.len() <= usize::MAX,
        r < g.len(),
        g[r as int].direct,
    ensures
        root_order(g).contains(r),
{
    lemma_direct_contains(g, r);
    lemma_sort_contains(names_of(g), direct_positions(g), r);
}

/// There is one first shortest chain.
pub proof fn lemma_first_shortest_path_unique(g: Seq<PackageModel>, p: Seq<usize>, q: Seq<usize>, t: int)
    requires
        g.len() <= usize::MAX,
        first_shortest_path(g, p, t),
        first_shortest_path(g, q, t),
    ensures
        p == q,
{
    lemma_lex_antisymmetric(chain_key(g, p), chain_key(g, q));
    assert(p.len() <= q.len() && q.len() <= p.len());
    lemma_chain_key_injective(g, p, q);
}

proof fn lemma_insert_contains(names: Seq<Seq<char>>, s: Seq<usize>, x: usize, y: usize)
    ensures
        insert_by_name(names, s, x).contains(y) <==> (s.contains(y) || y == x),
    decreases s.len(),
{
    if s.len() > 0 && seq_lt(names[x as int], names[s.last() as int]) {
        lemma_insert_contains(names, s.drop_last(), x, y);
        let r = insert_by_name(names, s.drop_last(), x);
        assert(s == s.drop_last().push(s.last()));
        if r.push(s.last()).contains(y) {
            let j = choose|j: int| 0 <= j < r.len() + 1 && r.push(s.last())[j] == y;
            if j < r.len() {
                assert(r[j] == y);
            }
        }
        if s.contains(y) {
            let j = choose|j: int| 0 <= j < s.len() && s[j] == y;
            if j < s.len() - 1 {
                assert(s.drop_last()[j] == y);
                let k = choose|k: int| 0 <= k < r.len() && r[k] == y;
                assert(r.push(s.last())[k] == y);
            } else {
                assert(r.push(s.last())[r.len() as int] == y);
            }
        }
        if y == x {
            let k = choose|k: int| 0 <= k < r.len() && r[k] == y;
            assert(r.push(s.last())[k] == y);
        }
    } else if s.len() > 0 {
        if s.push(x).contains(y) {
            let j = choose|j: int| 0 <= j < s.len() + 1 && s.push(x)[j] == y;
            if j < s.len() {
                assert(s[j] == y);
            }
        }
        if s.contains(y) {
            let j = choose|j: int| 0 <= j < s.len() && s[j] == y;
            assert(s.push(x)[j] == y);
        }
        if y == x {
            assert(s.push(x)[s.len() as int] == y);
        }
    } else {
        if y == x {
            assert(seq![x][0] == y);
        }
    }
}

proof fn lemma_sort_contains(names: Seq<Seq<char>>, s: Seq<usize>, y: usize)
    ensures
        sort_by_name(names, s).contains(y) <==> s.contains(y),
    decreases s.len(),
{
    if s.len() > 0 {
        lemma_sort_contains(names, s.drop_last(), y);
        lemma_insert_contains(names, sort_by_name(names, s.drop_last()), s.last(), y);
        if s.contains(y) {
            let j = choose|j: int| 0 <= j < s.len() && s[j] == y;
            if j < s.len() - 1 {
                assert(s.drop_last()[j] == y);
            }
        }
        if s.drop_last().contains(y) {
            let j = choose|j: int| 0 <= j < s.len() - 1 && s.drop_last()[j] == y;
            assert(s[j] == y);
        }
    }
}

proof fn lemma_direct_contains(g: Seq<PackageModel>, k: usize)
    requires
        g.len() <= usize::MAX,
    ensures
        direct_positions(g).contains(k) <==> (k < g.len() && g[k as int].direct),
    decreases g.len(),
{
    if g.len() > 0 {
        lemma_direct_contains(g.drop_last(), k);
        let r = direct_positions(g.drop_last());
        if k < g.len() - 1 {
            assert(g.drop_last()[k as int] == g[k as int]);
        }
        if g.last().direct {
            let rp = r.push((g.len() - 1) as usize);
            assert(direct_positions(g) == rp);
            if rp.contains(k) {
                let j = choose|j: int| 0 <= j < rp.len() && rp[j] == k;
                if j < r.len() {
                    assert(r[j] == k);
                    assert(r.contains(k));
                } else {
                    assert(j == r.len());
                    assert(rp[r.len() as int] == (g.len() - 1) as usize);
                    assert(k == g.len() - 1);
                }
            }
            if r.contains(k) {
                let j = choose|j: int| 0 <= j < r.len() && r[j] == k;
                assert(rp[j] == k);
            }
            if k == g.len() - 1 {
                assert(rp[r.len() as int] == k);
            }
        } else {
            assert(direct_positions(g) == r);
        }
    }
}

/// The parent chain of a found package is a chain from the project to it, one longer
/// than its level.
proof fn lemma_parent_chain(
    g: Seq<PackageModel>,
    q: Seq<usize>,
    h: int,
    disc: Seq<bool>,
    par: Seq<Option<usize>>,
    lvl: Seq<int>,
    v: usize,
)
    requires
        search_ok(g, q, h, disc, par, lvl),
        v < g.len(),
        disc[v as int],
    ensures
        root_path(g, parent_chain(par, lvl, v)),
        parent_chain(par, lvl, v).last() == v,
        parent_chain(par, lvl, v).len() == lvl[v as int] + 1,
    decreases lvl[v as int],
{
    assert(parent_ok(g, disc, par, lvl, v as int) && lvl.len() == g.len() && par.len() == g.len()) by {
        reveal(search_ok);
    }
    if lvl[v as int] > 0 {
        let u = par[v as int]->0;
        lemma_parent_chain(g, q, h, disc, par, lvl, u);
        let pu = parent_chain(par, lvl, u);
        let pv = pu.push(v);
        assert(parent_chain(par, lvl, v) == pv);
        assert forall|i: int| 0 <= i < pv.len() - 1 implies depends_on(g, #[trigger] pv[i] as int, pv[i + 1] as int) by {
            if i < pv.len() - 2 {
                assert(pv[i] == pu[i]);
                assert(pv[i + 1] == pu[i + 1]);
            }
        }
        assert forall|i: int| 0 <= i < pv.len() implies #[trigger] pv[i] < g.len() by {
            if i < pu.len() {
                assert(pv[i] == pu[i]);
            }
        }
    } else {
        assert(parent_chain(par, lvl, v) == seq![v]);
    }
}

/// A chain without its last step is still a chain from the project.
proof fn lemma_root_path_prefix(g: Seq<PackageModel>, p: Seq<usize>)
    requires
        root_path(g, p),
        p.len() > 1,
    ensures
        root_path(g, p.drop_last()),
        p.drop_last().last() == p[p.len() - 2],
        depends_on(g, p[p.len() - 2] as int, p.last() as int),
        p[p.len() - 2] < g.len(),
{
    let pp = p.drop_last();
    assert forall|i: int| 0 <= i < pp.len() - 1 implies depends_on(g, #[trigger] pp[i] as int, pp[i + 1] as int) by {
        assert(pp[i] == p[i]);
        assert(pp[i + 1] == p[i + 1]);
    }
    assert forall|i: int| 0 <= i < pp.len() implies #[trigger] pp[i] < g.len() by {
        assert(pp[i] == p[i]);
    }
    assert(depends_on(g, p[p.len() - 2] as int, p[p.len() - 1] as int));
}

/// Every package with a chain from the project of at most as many steps as the level of
/// the queue's head has been found.
proof fn lemma_near_found(
    g: Seq<PackageModel>,
    q: Seq<usize>,
    h: int,
    disc: Seq<bool>,
    par: Seq<Option<usize>>,
    lvl: Seq<int>,
    p: Seq<usize>,
)
    requires
        search_ok(g, q, h, disc, par, lvl),
        h < q.len(),
        root_path(g, p),
        p.len() - 1 <= lvl[q[h] as int],
    ensures
        disc[p.last() as int],
    decreases p.len(),
{
    if p.len() == 1 {
        assert(g[p[0] as int].direct);
        assert(disc[p[0] as int]) by {
            reveal(search_ok);
        }
    } else {
        lemma_root_path_prefix(g, p);
        let pp = p.drop_last();
        lemma_near_found(g, q, h, disc, par, lvl, pp);
        let x = pp.last();
        assert(x < g.len());
        assert(lvl[x as int] + 1 <= pp.len() && q.contains(x)) by {
            reveal(search_ok);
        }
        let j = choose|j: int| 0 <= j < q.len() && q[j] == x;
        if j >= h {
            assert(lvl[q[h] as int] <= lvl[q[j] as int]) by {
                reveal(search_ok);
            }
        }
        assert(j < h);
        let k = choose|k: int| 0 <= k < g[x as int].dependencies.len() && g[x as int].dependencies[k] == p.last();
        assert(g[q[j] as int].dependencies[k] == p.last());
        assert(disc[g[q[j] as int].dependencies[k] as int]) by {
            reveal(search_ok);
        }
    }
}

/// Once the queue is exhausted, every package reachable from the project has been found.
proof fn lemma_all_found(
    g: Seq<PackageModel>,
    q: Seq<usize>,
    disc: Seq<bool>,
    par: Seq<Option<usize>>,
    lvl: Seq<int>,
    p: Seq<usize>,
)
    requires
        search_ok(g, q, q.len() as int, disc, par, lvl),
        root_path(g, p),
    ensures
        disc[p.last() as int],
    decreases p.len(),
{
    if p.len() == 1 {
        assert(g[p[0] as int].direct);
        assert(disc[p[0] as int]) by {
            reveal(search_ok);
        }
    } else {
        lemma_root_path_prefix(g, p);
        let pp = p.drop_last();
        lemma_all_found(g, q, disc, par, lvl, pp);
        let x = pp.last();
        assert(x < g.len());
        assert(q.contains(x)) by {
            reveal(search_ok);
        }
        let j = choose|j: int| 0 <= j < q.len() && q[j] == x;
        let k = choose|k: int| 0 <= k < g[x as int].dependencies.len() && g[x as int].dependencies[k] == p.last();
        assert(g[q[j] as int].dependencies[k] == p.last());
        assert(disc[g[q[j] as int].dependencies[k] as int]) by {
            reveal(search_ok);
        }
    }
}


/// Queueing an unfound dependency `d` of the head `cur` keeps the invariant.
proof fn lemma_discover(
    g: Seq<PackageModel>,
    q: Seq<usize>,
    h: int,
    disc: Seq<bool>,
    par: Seq<Option<usize>>,
    lvl: Seq<int>,
    cur: usize,
    d: usize,
)
    requires
        search_ok(g, q, h, disc, par, lvl),
        h < q.len(),
        q[h] == cur,
        d < g.len(),
        !disc[d as int],
        depends_on(g, cur as int, d as int),
    ensures
        search_ok(
            g,
            q.push(d),
            h,
            disc.update(d as int, true),
            par.update(d as int, Some(cur)),
            lvl.update(d as int, lvl[cur as int] + 1),
        ),
{
    let q2 = q.push(d);
    let disc2 = disc.update(d as int, true);
    let par2 = par.update(d as int, Some(cur));
    let lvl2 = lvl.update(d as int, lvl[cur as int] + 1);
    let level = lvl[cur as int];
    assert(disc[cur as int] && lvl[cur as int] >= 0 && lvl.len() == g.len() && disc.len() == g.len() && g.len() <= usize::MAX) by {
        reveal(search_ok);
        assert(q[h] < g.len());
        assert(q.contains(cur));
        assert(disc[cur as int]);
        assert(parent_ok(g, disc, par, lvl, cur as int));
    }
    assert forall|p: Seq<usize>| #[trigger] root_path(g, p) && p.last() == d implies lvl2[d as int] + 1 <= p.len() by {
        if p.len() - 1 <= level {
            lemma_near_found(g, q, h, disc, par, lvl, p);
        }
    }
    reveal(search_ok);
    assert(!q.contains(d));
    assert forall|j: int| 0 <= j < q.len() implies #[trigger] q[j] != d by {
        if q[j] == d {
            assert(q.contains(d));
        }
    }
    assert forall|v: int| 0 <= v < g.len() implies (#[trigger] disc2[v] <==> q2.contains(v as usize)) by {
        if v == d {
            assert(q2[q.len() as int] == d);
        } else {
            if q2.contains(v as usize) {
                let j = choose|j: int| 0 <= j < q2.len() && q2[j] == v as usize;
                assert(j < q.len());
                assert(q[j] == v as usize);
            }
            if q.contains(v as usize) {
                let j = choose|j: int| 0 <= j < q.len() && q[j] == v as usize;
                assert(q2[j] == v as usize);
            }
        }
    }
    assert forall|a: int, b: int| 0 <= a <= b < q2.len() implies lvl2[#[trigger] q2[a] as int] <= lvl2[#[trigger] q2[b] as int] by {
        if b == q.len() {
            if a < q.len() {
                assert(q2[a] == q[a]);
                if a < h {
                    assert(lvl[q[a] as int] <= lvl[q[h] as int]);
                } else {
                    assert(lvl[q[a] as int] <= lvl[q[h] as int] + 1);
                }
            }
        } else {
            assert(q2[a] == q[a]);
            assert(q2[b] == q[b]);
        }
    }
    assert forall|a: int, b: int| h <= a < q2.len() && h <= b < q2.len() implies lvl2[#[trigger] q2[b] as int] <= lvl2[#[trigger] q2[a] as int] + 1 by {
        if a < q.len() {
            assert(q2[a] == q[a]);
            assert(lvl[q[h] as int] <= lvl[q[a] as int]);
        }
        if b < q.len() {
            assert(q2[b] == q[b]);
            assert(lvl[q[b] as int] <= lvl[q[h] as int] + 1);
        }
    }
    assert forall|j: int| 0 <= j < q2.len() implies #[trigger] q2[j] < g.len() by {
        if j < q.len() {
            assert(q2[j] == q[j]);
        }
    }
    assert forall|j: int, x: int| 0 <= j < h && 0 <= x < g[q2[j] as int].dependencies.len() implies disc2[#[trigger] g[#[trigger] q2[j] as int].dependencies[x] as int] by {
        assert(q2[j] == q[j]);
        assert(disc[g[q[j] as int].dependencies[x] as int]);
    }
    assert forall|v: int| 0 <= v < g.len() && #[trigger] disc2[v] implies parent_ok(g, disc2, par2, lvl2, v) by {
        if v != d {
            assert(parent_ok(g, disc, par, lvl, v));
            if lvl[v] > 0 {
                let u = par[v]->0 as int;
                assert(u != d);
            }
        }
    }
    assert forall|v: int, p: Seq<usize>| 0 <= v < g.len() && #[trigger] disc2[v] && #[trigger] root_path(g, p) && p.last() == v implies lvl2[v] + 1 <= p.len() by {
        if v != d {
            assert(disc[v]);
        }
    }
}

/// Once every dependency of the head is found, the head counts as handled.
proof fn lemma_advance(
    g: Seq<PackageModel>,
    q: Seq<usize>,
    h: int,
    disc: Seq<bool>,
    par: Seq<Option<usize>>,
    lvl: Seq<int>,
)
    requires
        search_ok(g, q, h, disc, par, lvl),
        h < q.len(),
        forall|x: int| 0 <= x < g[q[h] as int].dependencies.len() ==> disc[#[trigger] g[q[h] as int].dependencies[x] as int],
    ensures
        search_ok(g, q, h + 1, disc, par, lvl),
{
    reveal(search_ok);
    assert forall|j: int, x: int| 0 <= j < h + 1 && 0 <= x < g[q[j] as int].dependencies.len() implies disc[#[trigger] g[#[trigger] q[j] as int].dependencies[x] as int] by {
        if j == h {
            assert(disc[g[q[h] as int].dependencies[x] as int]);
        }
    }
}

/// The start of the search: the direct dependencies queued at level zero.
proof fn lemma_start(g: Seq<PackageModel>, q: Seq<usize>, disc: Seq<bool>, par: Seq<Option<usize>>, lvl: Seq<int>)
    requires
        g.len() <= usize::MAX,
        graph_wf(g),
        disc.len() == g.len(),
        par.len() == g.len(),
        lvl.len() == g.len(),
        forall|j: int| 0 <= j < q.len() ==> #[trigger] q[j] < g.len() && g[q[j] as int].direct,
        forall|v: int| 0 <= v < g.len() ==> (#[trigger] disc[v] <==> q.contains(v as usize)),
        forall|v: int| 0 <= v < g.len() && #[trigger] g[v].direct ==> disc[v],
        forall|v: int| 0 <= v < g.len() ==> #[trigger] par[v] is None,
        forall|v: int| 0 <= v < g.len() ==> #[trigger] lvl[v] == 0,
    ensures
        search_ok(g, q, 0, disc, par, lvl),
{
    reveal(search_ok);
    assert forall|v: int| 0 <= v < g.len() && #[trigger] disc[v] implies parent_ok(g, disc, par, lvl, v) by {
        let j = choose|j: int| 0 <= j < q.len() && q[j] == v as usize;
        assert(g[q[j] as int].direct);
    }
    assert forall|a: int, b: int| 0 <= a <= b < q.len() implies lvl[#[trigger] q[a] as int] <= lvl[#[trigger] q[b] as int] by {
        assert(lvl[q[a] as int] == 0);
        assert(lvl[q[b] as int] == 0);
    }
    assert forall|a: int, b: int| 0 <= a < q.len() && 0 <= b < q.len() implies lvl[#[trigger] q[b] as int] <= lvl[#[trigger] q[a] as int] + 1 by {
        assert(lvl[q[a] as int] == 0);
        assert(lvl[q[b] as int] == 0);
    }
}

proof fn lemma_count_false_unvisited(n: nat)
    ensures
        count_false(unvisited(n)) == n,
    decreases n,
{
    if n > 0 {
        lemma_count_false_unvisited((n - 1) as nat);
        assert(unvisited(n).drop_last() == unvisited((n - 1) as nat));
    }
}


#[verifier::opaque]
/// What the search keeps of the order in which it finds packages: each found package's
/// recorded chain has the least key among the chains to it of its length; along the queue,
/// keys increase within a level; the queue holds no package twice; and every recorded
/// parent stands at or before the head `h`, those found from the head itself coming from
/// its dependencies before position `i`.
pub open spec fn order_ok(
    g: Seq<PackageModel>,
    q: Seq<usize>,
    h: int,
    i: int,
    disc: Seq<bool>,
    par: Seq<Option<usize>>,
    lvl: Seq<int>,
) -> bool {
    &&& forall|v: int, p: Seq<usize>|
        0 <= v < g.len() && #[trigger] disc[v] && #[trigger] root_path(g, p) && p.last() == v && p.len() == lvl[v] + 1
            ==> key_le(chain_key(g, parent_chain(par, lvl, v as usize)), chain_key(g, p))
    &&& forall|a: int, b: int|
        #![trigger q[a], q[b]]
        0 <= a < b < q.len() && lvl[q[a] as int] == lvl[q[b] as int]
            ==> lex_lt(chain_key(g, parent_chain(par, lvl, q[a])), chain_key(g, parent_chain(par, lvl, q[b])))
    &&& forall|a: int, b: int| #![trigger q[a], q[b]] 0 <= a < b < q.len() ==> q[a] != q[b]
    &&& forall|v: int|
        0 <= v < g.len() && #[trigger] disc[v] && lvl[v] > 0 ==> exists|j: int|
            0 <= j <= h && j < q.len() && #[trigger] q[j] == par[v]->0 && (j == h ==> pos_of(
                g[q[h] as int].dependencies,
                v as usize,
            ) < i)
}

/// Recording a parent for an unfound package leaves the chains of found ones as they were.
proof fn lemma_chain_frame(
    g: Seq<PackageModel>,
    q: Seq<usize>,
    h: int,
    disc: Seq<bool>,
    par: Seq<Option<usize>>,
    lvl: Seq<int>,
    d: usize,
    cur: usize,
    x: int,
    v: usize,
)
    requires
        search_ok(g, q, h, disc, par, lvl),
        d < g.len(),
        !disc[d as int],
        v < g.len(),
        disc[v as int],
    ensures
        parent_chain(par.update(d as int, Some(cur)), lvl.update(d as int, x), v) == parent_chain(par, lvl, v),
    decreases lvl[v as int],
{
    assert(parent_ok(g, disc, par, lvl, v as int) && lvl.len() == g.len() && par.len() == g.len()) by {
        reveal(search_ok);
    }
    let par2 = par.update(d as int, Some(cur));
    let lvl2 = lvl.update(d as int, x);
    assert(v != d);
    assert(par2[v as int] == par[v as int] && lvl2[v as int] == lvl[v as int]);
    if lvl[v as int] > 0 {
        let u = par[v as int]->0;
        assert(disc[u as int] && u < g.len());
        assert(u != d);
        assert(lvl2[u as int] == lvl[u as int]);
        lemma_chain_frame(g, q, h, disc, par, lvl, d, cur, x, u);
    }
}

/// The chain recorded for a package found from `cur`: the chain of `cur`, then the package.
proof fn lemma_chain_of_found(
    g: Seq<PackageModel>,
    q: Seq<usize>,
    h: int,
    disc: Seq<bool>,
    par: Seq<Option<usize>>,
    lvl: Seq<int>,
    d: usize,
    cur: usize,
)
    requires
        search_ok(g, q, h, disc, par, lvl),
        d < g.len(),
        !disc[d as int],
        cur < g.len(),
        disc[cur as int],
    ensures
        parent_chain(par.update(d as int, Some(cur)), lvl.update(d as int, lvl[cur as int] + 1), d)
            == parent_chain(par, lvl, cur).push(d),
{
    assert(parent_ok(g, disc, par, lvl, cur as int) && lvl.len() == g.len() && par.len() == g.len()) by {
        reveal(search_ok);
    }
    let par2 = par.update(d as int, Some(cur));
    let lvl2 = lvl.update(d as int, lvl[cur as int] + 1);
    assert(cur != d);
    assert(lvl2[cur as int] == lvl[cur as int]);
    lemma_chain_frame(g, q, h, disc, par, lvl, d, cur, lvl[cur as int] + 1, cur);
}

/// A found package at a positive level: its chain is its parent's chain, then itself.
proof fn lemma_chain_of_child(
    g: Seq<PackageModel>,
    q: Seq<usize>,
    h: int,
    disc: Seq<bool>,
    par: Seq<Option<usize>>,
    lvl: Seq<int>,
    e: usize,
)
    requires
        search_ok(g, q, h, disc, par, lvl),
        e < g.len(),
        disc[e as int],
        lvl[e as int] > 0,
    ensures
        par[e as int] is Some,
        (par[e as int]->0) < g.len(),
        disc[par[e as int]->0 as int],
        lvl[par[e as int]->0 as int] == lvl[e as int] - 1,
        depends_on(g, par[e as int]->0 as int, e as int),
        parent_chain(par, lvl, e) == parent_chain(par, lvl, par[e as int]->0).push(e),
{
    assert(parent_ok(g, disc, par, lvl, e as int) && lvl.len() == g.len() && par.len() == g.len()) by {
        reveal(search_ok);
    }
}

/// Finding an unfound dependency `d` of the head keeps a chain of least key for `d`.
proof fn lemma_order_found_least(
    g: Seq<PackageModel>,
    q: Seq<usize>,
    h: int,
    i: int,
    disc: Seq<bool>,
    par: Seq<Option<usize>>,
    lvl: Seq<int>,
    cur: usize,
    d: usize,
    p: Seq<usize>,
)
    requires
        search_ok(g, q, h, disc, par, lvl),
        order_ok(g, q, h, i, disc, par, lvl),
        0 <= h < q.len(),
        q[h] == cur,
        d < g.len(),
        !disc[d as int],
        0 <= i < g[cur as int].dependencies.len(),
        g[cur as int].dependencies[i] == d,
        pos_of(g[cur as int].dependencies, d) == i,
        root_path(g, p),
        p.last() == d,
        p.len() == lvl[cur as int] + 2,
    ensures
        key_le(chain_key(g, parent_chain(par, lvl, cur).push(d)), chain_key(g, p)),
{
    assert(disc[cur as int] && cur < g.len() && lvl[cur as int] >= 0) by {
        reveal(search_ok);
        assert(q[h] < g.len());
        assert(q.contains(cur));
        assert(disc[cur as int]);
        assert(parent_ok(g, disc, par, lvl, cur as int));
    }
    lemma_root_path_prefix(g, p);
    let pp = p.drop_last();
    let u = pp.last();
    lemma_near_found(g, q, h, disc, par, lvl, pp);
    assert(u < g.len());
    assert(lvl[u as int] + 1 <= pp.len() && q.contains(u)) by {
        reveal(search_ok);
    }
    let j = choose|j: int| 0 <= j < q.len() && q[j] == u;
    if j < h {
        let k = choose|k: int| 0 <= k < g[u as int].dependencies.len() && g[u as int].dependencies[k] == d;
        assert(g[q[j] as int].dependencies[k] == d);
        assert(disc[g[q[j] as int].dependencies[k] as int]) by {
            reveal(search_ok);
        }
        assert(false);
    }
    assert(lvl[q[h] as int] <= lvl[q[j] as int]) by {
        reveal(search_ok);
    }
    assert(lvl[u as int] == lvl[cur as int]);
    lemma_parent_chain(g, q, h, disc, par, lvl, cur);
    lemma_parent_chain(g, q, h, disc, par, lvl, u);
    let cc = parent_chain(par, lvl, cur);
    assert(key_le(chain_key(g, parent_chain(par, lvl, u)), chain_key(g, pp))) by {
        reveal(order_ok);
    }
    assert(p == pp.push(d));
    lemma_chain_key_push(g, pp, d);
    lemma_chain_key_push(g, cc, d);
    assert(cc.last() == cur);
    if j == h {
        assert(u == cur);
        lemma_key_le_push(chain_key(g, cc), chain_key(g, pp), i);
    } else {
        assert(0 <= h < j < q.len());
        assert(lvl[q[h] as int] == lvl[q[j] as int]);
        assert(lex_lt(chain_key(g, parent_chain(par, lvl, q[h])), chain_key(g, parent_chain(par, lvl, q[j])))) by {
            reveal(order_ok);
        }
        lemma_lex_lt_le(chain_key(g, cc), chain_key(g, parent_chain(par, lvl, u)), chain_key(g, pp));
        lemma_lex_push(chain_key(g, cc), chain_key(g, pp), i, pos_of(g[u as int].dependencies, d));
    }
}

/// Finding an unfound dependency `d` of the head, at position `i` of its dependencies,
/// keeps the order.
proof fn lemma_order_discover(
    g: Seq<PackageModel>,
    q: Seq<usize>,
    h: int,
    i: int,
    disc: Seq<bool>,
    par: Seq<Option<usize>>,
    lvl: Seq<int>,
    cur: usize,
    d: usize,
)
    requires
        search_ok(g, q, h, disc, par, lvl),
        order_ok(g, q, h, i, disc, par, lvl),
        0 <= h < q.len(),
        q[h] == cur,
        d < g.len(),
        !disc[d as int],
        0 <= i < g[cur as int].dependencies.len(),
        g[cur as int].dependencies[i] == d,
        forall|x: int| 0 <= x < i ==> disc[#[trigger] g[cur as int].dependencies[x] as int],
    ensures
        order_ok(
            g,
            q.push(d),
            h,
            i + 1,
            disc.update(d as int, true),
            par.update(d as int, Some(cur)),
            lvl.update(d as int, lvl[cur as int] + 1),
        ),
{
    let deps = g[cur as int].dependencies;
    let q2 = q.push(d);
    let disc2 = disc.update(d as int, true);
    let par2 = par.update(d as int, Some(cur));
    let lvl2 = lvl.update(d as int, lvl[cur as int] + 1);
    assert(disc[cur as int] && cur < g.len() && lvl[cur as int] >= 0 && disc.len() == g.len() && lvl.len() == g.len()
        && par.len() == g.len() && g.len() <= usize::MAX) by {
        reveal(search_ok);
        assert(q[h] < g.len());
        assert(q.contains(cur));
        assert(disc[cur as int]);
        assert(parent_ok(g, disc, par, lvl, cur as int));
    }
    assert forall|x: int| 0 <= x < i implies deps[x] != d by {
        assert(disc[deps[x] as int]);
    }
    lemma_pos_of_first(deps, d, i);
    lemma_chain_of_found(g, q, h, disc, par, lvl, d, cur);
    let cc = parent_chain(par, lvl, cur);
    lemma_parent_chain(g, q, h, disc, par, lvl, cur);
    lemma_chain_key_push(g, cc, d);
    assert(cc.last() == cur);
    // Which packages are in the queue, and that `d` is not.
    assert(forall|j: int| 0 <= j < q.len() ==> #[trigger] q[j] < g.len() && disc[q[j] as int]) by {
        reveal(search_ok);
        assert forall|j: int| 0 <= j < q.len() implies #[trigger] q[j] < g.len() && disc[q[j] as int] by {
            assert(q.contains(q[j]));
        }
    }
    assert forall|v: int| 0 <= v < g.len() && #[trigger] disc2[v] && v != d implies parent_chain(par2, lvl2, v as usize)
        == parent_chain(par, lvl, v as usize) by {
        lemma_chain_frame(g, q, h, disc, par, lvl, d, cur, lvl[cur as int] + 1, v as usize);
    }
    reveal(order_ok);
    // Least keys.
    assert forall|v: int, p: Seq<usize>|
        0 <= v < g.len() && #[trigger] disc2[v] && #[trigger] root_path(g, p) && p.last() == v && p.len() == lvl2[v] + 1
        implies key_le(chain_key(g, parent_chain(par2, lvl2, v as usize)), chain_key(g, p)) by {
        if v == d {
            lemma_order_found_least(g, q, h, i, disc, par, lvl, cur, d, p);
        }
    }
    // Order within levels.
    assert forall|a: int, b: int|
        #![trigger q2[a], q2[b]]
        0 <= a < b < q2.len() && lvl2[q2[a] as int] == lvl2[q2[b] as int]
        implies lex_lt(chain_key(g, parent_chain(par2, lvl2, q2[a])), chain_key(g, parent_chain(par2, lvl2, q2[b]))) by {
        assert(q2[a] == q[a]);
        assert(q[a] < g.len() && disc[q[a] as int]);
        assert(q[a] != d);
        lemma_chain_frame(g, q, h, disc, par, lvl, d, cur, lvl[cur as int] + 1, q[a]);
        assert(lvl2[q[a] as int] == lvl[q[a] as int]);
        if b < q.len() {
            assert(q2[b] == q[b]);
            assert(q[b] < g.len() && disc[q[b] as int]);
            assert(q[b] != d);
            lemma_chain_frame(g, q, h, disc, par, lvl, d, cur, lvl[cur as int] + 1, q[b]);
            assert(lvl2[q[b] as int] == lvl[q[b] as int]);
            assert(lex_lt(chain_key(g, parent_chain(par, lvl, q[a])), chain_key(g, parent_chain(par, lvl, q[b]))));
        } else {
            assert(q2[b] == d);
            assert(lvl[q[a] as int] == lvl[cur as int] + 1);
            lemma_order_new_last(g, q, h, i, disc, par, lvl, cur, d, a);
        }
    }
    assert forall|a: int, b: int| #![trigger q2[a], q2[b]] 0 <= a < b < q2.len() implies q2[a] != q2[b] by {
        assert(q2[a] == q[a]);
        if b < q.len() {
            assert(q2[b] == q[b]);
        }
    }
    // Parents.
    assert forall|v: int| 0 <= v < g.len() && #[trigger] disc2[v] && lvl2[v] > 0 implies exists|j: int|
        0 <= j <= h && j < q2.len() && #[trigger] q2[j] == par2[v]->0 && (j == h ==> pos_of(g[q2[h] as int].dependencies, v as usize) < i + 1) by {
        assert(q2[h] == q[h]);
        if v == d {
            assert(q2[h] == par2[v]->0);
        } else {
            let j = choose|j: int| 0 <= j <= h && j < q.len() && #[trigger] q[j] == par[v]->0 && (j == h ==> pos_of(g[q[h] as int].dependencies, v as usize) < i);
            assert(q2[j] == par2[v]->0);
        }
    }
}

/// The new last entry of the queue comes after every entry of its level.
proof fn lemma_order_new_last(
    g: Seq<PackageModel>,
    q: Seq<usize>,
    h: int,
    i: int,
    disc: Seq<bool>,
    par: Seq<Option<usize>>,
    lvl: Seq<int>,
    cur: usize,
    d: usize,
    a: int,
)
    requires
        search_ok(g, q, h, disc, par, lvl),
        order_ok(g, q, h, i, disc, par, lvl),
        0 <= h < q.len(),
        q[h] == cur,
        d < g.len(),
        !disc[d as int],
        0 <= i < g[cur as int].dependencies.len(),
        pos_of(g[cur as int].dependencies, d) == i,
        0 <= a < q.len(),
        q[a] != d,
        lvl[q[a] as int] == lvl[cur as int] + 1,
    ensures
        lex_lt(
            chain_key(g, parent_chain(par.update(d as int, Some(cur)), lvl.update(d as int, lvl[cur as int] + 1), q[a])),
            chain_key(g, parent_chain(par.update(d as int, Some(cur)), lvl.update(d as int, lvl[cur as int] + 1), d)),
        ),
{
    let e = q[a];
    assert(e < g.len() && cur < g.len() && disc[e as int] && disc[cur as int]) by {
        reveal(search_ok);
        assert(q[a] < g.len());
        assert(q[h] < g.len());
        assert(q.contains(e));
        assert(q.contains(cur));
    }
    assert(lvl[cur as int] >= 0) by {
        reveal(search_ok);
        assert(parent_ok(g, disc, par, lvl, cur as int));
    }
    lemma_chain_frame(g, q, h, disc, par, lvl, d, cur, lvl[cur as int] + 1, e);
    lemma_chain_of_found(g, q, h, disc, par, lvl, d, cur);
    lemma_chain_of_child(g, q, h, disc, par, lvl, e);
    let pe = par[e as int]->0;
    lemma_parent_chain(g, q, h, disc, par, lvl, pe);
    lemma_parent_chain(g, q, h, disc, par, lvl, cur);
    let ce = parent_chain(par, lvl, pe);
    let cc = parent_chain(par, lvl, cur);
    lemma_chain_key_push(g, ce, e);
    lemma_chain_key_push(g, cc, d);
    assert(ce.last() == pe && cc.last() == cur);
    assert(exists|j: int| 0 <= j <= h && j < q.len() && #[trigger] q[j] == par[e as int]->0 && (j == h ==> pos_of(g[q[h] as int].dependencies, e) < i)) by {
        reveal(order_ok);
    }
    let j = choose|j: int| 0 <= j <= h && j < q.len() && #[trigger] q[j] == par[e as int]->0 && (j == h ==> pos_of(g[q[h] as int].dependencies, e) < i);
    if j == h {
        assert(pe == cur);
        lemma_lex_push(chain_key(g, cc), chain_key(g, cc), pos_of(g[cur as int].dependencies, e), i);
    } else {
        assert(0 <= j < h < q.len());
        assert(lvl[q[j] as int] == lvl[q[h] as int]);
        assert(lex_lt(chain_key(g, parent_chain(par, lvl, q[j])), chain_key(g, parent_chain(par, lvl, q[h])))) by {
            reveal(order_ok);
        }
        lemma_lex_push(chain_key(g, ce), chain_key(g, cc), pos_of(g[pe as int].dependencies, e), i);
    }
}

/// A dependency of the head that was already found changes nothing.
proof fn lemma_order_skip(g: Seq<PackageModel>, q: Seq<usize>, h: int, i: int, disc: Seq<bool>, par: Seq<Option<usize>>, lvl: Seq<int>)
    requires
        order_ok(g, q, h, i, disc, par, lvl),
    ensures
        order_ok(g, q, h, i + 1, disc, par, lvl),
{
    reveal(order_ok);
    assert forall|v: int| 0 <= v < g.len() && #[trigger] disc[v] && lvl[v] > 0 implies exists|j: int|
        0 <= j <= h && j < q.len() && #[trigger] q[j] == par[v]->0 && (j == h ==> pos_of(g[q[h] as int].dependencies, v as usize) < i + 1) by {
        let j = choose|j: int| 0 <= j <= h && j < q.len() && #[trigger] q[j] == par[v]->0 && (j == h ==> pos_of(g[q[h] as int].dependencies, v as usize) < i);
        assert(q[j] == par[v]->0);
    }
}

/// Moving on to the next entry of the queue keeps the order.
proof fn lemma_order_advance(g: Seq<PackageModel>, q: Seq<usize>, h: int, i: int, disc: Seq<bool>, par: Seq<Option<usize>>, lvl: Seq<int>)
    requires
        order_ok(g, q, h, i, disc, par, lvl),
    ensures
        order_ok(g, q, h + 1, 0, disc, par, lvl),
{
    reveal(order_ok);
    assert forall|v: int| 0 <= v < g.len() && #[trigger] disc[v] && lvl[v] > 0 implies exists|j: int|
        0 <= j <= h + 1 && j < q.len() && #[trigger] q[j] == par[v]->0 && (j == h + 1 ==> pos_of(g[q[h + 1] as int].dependencies, v as usize) < 0) by {
        let j = choose|j: int| 0 <= j <= h && j < q.len() && #[trigger] q[j] == par[v]->0 && (j == h ==> pos_of(g[q[h] as int].dependencies, v as usize) < i);
        assert(q[j] == par[v]->0);
    }
}

/// The key of a chain of one package.
proof fn lemma_chain_key_single(g: Seq<PackageModel>, r: usize)
    ensures
        chain_key(g, seq![r]) == seq![pos_of(root_order(g), r)],
{
    assert(chain_key(g, seq![r]) == seq![pos_of(root_order(g), r)]);
}

/// The order at the start: the direct dependencies queued in name order.
proof fn lemma_order_start(g: Seq<PackageModel>, q: Seq<usize>, disc: Seq<bool>, par: Seq<Option<usize>>, lvl: Seq<int>)
    requires
        search_ok(g, q, 0, disc, par, lvl),
        forall|v: int| 0 <= v < g.len() ==> #[trigger] par[v] is None,
        forall|v: int| 0 <= v < g.len() ==> #[trigger] lvl[v] == 0,
        forall|a: int, b: int| 0 <= a < b < q.len() ==> pos_of(root_order(g), #[trigger] q[a]) < pos_of(root_order(g), #[trigger] q[b]),
    ensures
        order_ok(g, q, 0, 0, disc, par, lvl),
{
    assert(lvl.len() == g.len() && par.len() == g.len() && disc.len() == g.len()) by {
        reveal(search_ok);
    }
    reveal(order_ok);
    assert forall|v: int, p: Seq<usize>|
        0 <= v < g.len() && #[trigger] disc[v] && #[trigger] root_path(g, p) && p.last() == v && p.len() == lvl[v] + 1
        implies key_le(chain_key(g, parent_chain(par, lvl, v as usize)), chain_key(g, p)) by {
        assert(parent_chain(par, lvl, v as usize) == seq![v as usize]);
        assert(p == seq![v as usize]);
    }
    assert forall|a: int, b: int|
        #![trigger q[a], q[b]]
        0 <= a < b < q.len() && lvl[q[a] as int] == lvl[q[b] as int]
        implies lex_lt(chain_key(g, parent_chain(par, lvl, q[a])), chain_key(g, parent_chain(par, lvl, q[b]))) by {
        assert(q[a] < g.len() && q[b] < g.len()) by {
            reveal(search_ok);
        }
        assert(parent_chain(par, lvl, q[a]) == seq![q[a]]);
        assert(parent_chain(par, lvl, q[b]) == seq![q[b]]);
        lemma_chain_key_single(g, q[a]);
        lemma_chain_key_single(g, q[b]);
        let e = Seq::<int>::empty();
        lemma_lex_push(e, e, pos_of(root_order(g), q[a]), pos_of(root_order(g), q[b]));
        assert(e.push(pos_of(root_order(g), q[a])) == seq![pos_of(root_order(g), q[a])]);
        assert(e.push(pos_of(root_order(g), q[b])) == seq![pos_of(root_order(g), q[b])]);
    }
    assert forall|a: int, b: int| #![trigger q[a], q[b]] 0 <= a < b < q.len() implies q[a] != q[b] by {
        assert(pos_of(root_order(g), q[a]) < pos_of(root_order(g), q[b]));
    }
}

/// When the search reaches `t`, the chain it recorded is the first shortest chain to `t`.
proof fn lemma_order_result(
    g: Seq<PackageModel>,
    q: Seq<usize>,
    h: int,
    disc: Seq<bool>,
    par: Seq<Option<usize>>,
    lvl: Seq<int>,
    t: usize,
)
    requires
        search_ok(g, q, h, disc, par, lvl),
        order_ok(g, q, h, 0, disc, par, lvl),
        t < g.len(),
        disc[t as int],
        shortest_root_path(g, parent_chain(par, lvl, t), t as int),
    ensures
        first_shortest_path(g, parent_chain(par, lvl, t), t as int),
{
    lemma_parent_chain(g, q, h, disc, par, lvl, t);
    let c = parent_chain(par, lvl, t);
    assert forall|p: Seq<usize>| #[trigger] shortest_root_path(g, p, t as int) implies key_le(chain_key(g, c), chain_key(g, p)) by {
        assert(p.len() <= c.len());
        assert(c.len() <= p.len());
        reveal(order_ok);
    }
}

/// Follows the recorded parents from `v` back to a direct dependency.
fn trace(
    par: &Vec<Option<usize>>,
    v: usize,
    Ghost(g): Ghost<Seq<PackageModel>>,
    Ghost(q): Ghost<Seq<usize>>,
    Ghost(h): Ghost<int>,
    Ghost(disc): Ghost<Seq<bool>>,
    Ghost(lvl): Ghost<Seq<int>>,
) -> (r: Vec<usize>)
    requires
        search_ok(g, q, h, disc, par@, lvl),
        v < g.len(),
        disc[v as int],
    ensures
        r@ == parent_chain(par@, lvl, v),
{
    assert(par@.len() == g.len() && lvl.len() == g.len()) by {
        reveal(search_ok);
    }
    let mut path: Vec<usize> = Vec::new();
    let mut cursor = v;
    loop
        invariant_except_break
            parent_chain(par@, lvl, v) == parent_chain(par@, lvl, cursor) + path@,
        invariant
            search_ok(g, q, h, disc, par@, lvl),
            par@.len() == g.len(),
            lvl.len() == g.len(),
            cursor < g.len(),
            disc[cursor as int],
        ensures
            path@ == parent_chain(par@, lvl, v),
        decreases lvl[cursor as int],
    {
        assert(parent_ok(g, disc, par@, lvl, cursor as int)) by {
            reveal(search_ok);
        }
        let ghost before = path@;
        path.insert(0, cursor);
        assert(path@ == seq![cursor] + before);
        match par[cursor] {
            None => {
                assert(parent_chain(par@, lvl, cursor) == seq![cursor]);
                assert(parent_chain(par@, lvl, v) == path@);
                break;
            },
            Some(u) => {
                assert(parent_chain(par@, lvl, cursor) == parent_chain(par@, lvl, u).push(cursor));
                assert(parent_chain(par@, lvl, u).push(cursor) + before == parent_chain(par@, lvl, u) + path@);
                cursor = u;
            },
        }
    }
    path
}

impl Graph {
    /// A shortest chain from a direct dependency to `target`, found breadth first with the
    /// direct dependencies taken in name order.
    fn shortest_path(&self, target: usize) -> (r: Option<Vec<usize>>)
        requires
            target < self@.len(),
        ensures
            r matches Some(p) ==> first_shortest_path(self@, p@, target as int),
            r is None ==> !reachable(self@, target as int),
    {
        proof {
            use_type_invariant(self);
        }
        let ghost g = self@;
        let n = self.packages.len();
        assert(g.len() == n);
        let roots = self.roots();
        let mut disc: Vec<bool> = Vec::new();
        let mut par: Vec<Option<usize>> = Vec::new();
        let mut k: usize = 0;
        while k < n
            invariant
                k <= n,
                disc@ == unvisited(k as nat),
                par@.len() == k,
                forall|v: int| 0 <= v < k ==> #[trigger] par@[v] is None,
            decreases n - k,
        {
            disc.push(false);
            par.push(None);
            k = k + 1;
            assert(disc@ == unvisited(k as nat));
        }
        let ghost mut lvl: Seq<int> = Seq::new(n as nat, |i: int| 0int);
        proof {
            lemma_count_false_unvisited(n as nat);
        }
        let mut queue: Vec<usize> = Vec::new();
        let mut i: usize = 0;
        while i < roots.len()
            invariant
                g == self@,
                graph_wf(g),
                n == g.len(),
                roots@ == root_order(g),
                forall|j: int| 0 <= j < roots@.len() ==> #[trigger] roots@[j] < n,
                i <= roots@.len(),
                disc@.len() == n,
                par@.len() == n,
                forall|v: int| 0 <= v < n ==> #[trigger] par@[v] is None,
                forall|j: int| 0 <= j < queue@.len() ==> #[trigger] queue@[j] < n && g[queue@[j] as int].direct,
                forall|v: int| 0 <= v < n ==> (#[trigger] disc@[v] <==> queue@.contains(v as usize)),
                forall|j: int| 0 <= j < i ==> disc@[#[trigger] roots@[j] as int],
                queue@.len() + count_false(disc@) == n,
                forall|a: int, b: int| 0 <= a < b < queue@.len() ==> pos_of(roots@, #[trigger] queue@[a]) < pos_of(roots@, #[trigger] queue@[b]),
                forall|a: int| 0 <= a < queue@.len() ==> pos_of(roots@, #[trigger] queue@[a]) < i,
            decreases roots@.len() - i,
        {
            let r = roots[i];
            proof {
                assert(roots@.contains(r));
                lemma_sort_contains(names_of(g), direct_positions(g), r);
                lemma_direct_contains(g, r);
            }
            if !disc[r] {
                proof {
                    lemma_count_false_update(disc@, r as int);
                }
                let ghost q0 = queue@;
                let ghost d0 = disc@;
                proof {
                    assert forall|j: int| 0 <= j < i implies roots@[j] != r by {
                        assert(disc@[roots@[j] as int]);
                    }
                    lemma_pos_of_first(roots@, r, i as int);
                }
                disc.set(r, true);
                queue.push(r);
                assert forall|a: int, b: int| 0 <= a < b < queue@.len() implies pos_of(roots@, #[trigger] queue@[a]) < pos_of(roots@, #[trigger] queue@[b]) by {
                    assert(queue@[a] == q0[a]);
                    if b < q0.len() {
                        assert(queue@[b] == q0[b]);
                    }
                }
                assert forall|a: int| 0 <= a < queue@.len() implies pos_of(roots@, #[trigger] queue@[a]) < i + 1 by {
                    if a < q0.len() {
                        assert(queue@[a] == q0[a]);
                    }
                }
                assert forall|v: int| 0 <= v < n implies (#[trigger] disc@[v] <==> queue@.contains(v as usize)) by {
                    if v == r {
                        assert(queue@[q0.len() as int] == r);
                    } else {
                        if queue@.contains(v as usize) {
                            let j = choose|j: int| 0 <= j < queue@.len() && queue@[j] == v as usize;
                            assert(j < q0.len());
                            assert(q0[j] == v as usize);
                        }
                        if q0.contains(v as usize) {
                            let j = choose|j: int| 0 <= j < q0.len() && q0[j] == v as usize;
                            assert(queue@[j] == v as usize);
                        }
                    }
                }
                assert forall|j: int| 0 <= j < queue@.len() implies #[trigger] queue@[j] < n && g[queue@[j] as int].direct by {
                    if j < q0.len() {
                        assert(queue@[j] == q0[j]);
                    }
                }
            }
            i = i + 1;
        }
        proof {
            assert forall|v: int| 0 <= v < n && #[trigger] g[v].direct implies disc@[v] by {
                lemma_direct_contains(g, v as usize);
                lemma_sort_contains(names_of(g), direct_positions(g), v as usize);
                let j = choose|j: int| 0 <= j < roots@.len() && roots@[j] == v as usize;
                assert(disc@[roots@[j] as int]);
            }
            lemma_start(g, queue@, disc@, par@, lvl);
            lemma_order_start(g, queue@, disc@, par@, lvl);
        }
        let mut head: usize = 0;
        while head < queue.len()
            invariant
                g == self@,
                graph_wf(g),
                n == g.len(),
                target < n,
                search_ok(g, queue@, head as int, disc@, par@, lvl),
                order_ok(g, queue@, head as int, 0, disc@, par@, lvl),
                head <= queue@.len(),
                queue@.len() + count_false(disc@) == n,
                disc@.len() == n,
                par@.len() == n,
                forall|j: int| 0 <= j < head ==> #[trigger] queue@[j] != target,
            decreases n - head,
        {
            let current = queue[head];
            assert(current < n) by {
                reveal(search_ok);
            }
            if current == target {
                assert(disc@[current as int]) by {
                    reveal(search_ok);
                    assert(queue@.contains(current));
                }
                let path = trace(&par, current, Ghost(g), Ghost(queue@), Ghost(head as int), Ghost(disc@), Ghost(lvl));
                proof {
                    lemma_parent_chain(g, queue@, head as int, disc@, par@, lvl, current);
                    assert forall|q: Seq<usize>| #[trigger] root_path(g, q) && q.last() == target implies path@.len() <= q.len() by {
                        reveal(search_ok);
                    }
                    lemma_order_result(g, queue@, head as int, disc@, par@, lvl, current);
                }
                return Some(path);
            }
            let m = self.packages[current].dependencies.len();
            assert(g[current as int].dependencies == self.packages@[current as int]@.dependencies);
            let mut i: usize = 0;
            while i < m
                invariant
                    g == self@,
                    graph_wf(g),
                    n == g.len(),
                    target < n,
                    current < n,
                    head < queue@.len(),
                    queue@[head as int] == current,
                    m == g[current as int].dependencies.len(),
                    i <= m,
                    search_ok(g, queue@, head as int, disc@, par@, lvl),
                    order_ok(g, queue@, head as int, i as int, disc@, par@, lvl),
                    queue@.len() + count_false(disc@) == n,
                    disc@.len() == n,
                    par@.len() == n,
                    forall|j: int| 0 <= j < head ==> #[trigger] queue@[j] != target,
                    forall|x: int| 0 <= x < i ==> disc@[#[trigger] g[current as int].dependencies[x] as int],
                decreases m - i,
            {
                let d = self.packages[current].dependencies[i];
                assert(d == g[current as int].dependencies[i as int]);
                assert(d < n) by {
                    reveal(search_ok);
                }
                if !disc[d] {
                    proof {
                        assert(g[current as int].dependencies.contains(d));
                        lemma_discover(g, queue@, head as int, disc@, par@, lvl, current, d);
                        lemma_order_discover(g, queue@, head as int, i as int, disc@, par@, lvl, current, d);
                        lemma_count_false_update(disc@, d as int);
                        lvl = lvl.update(d as int, lvl[current as int] + 1);
                    }
                    let ghost q0 = queue@;
                    disc.set(d, true);
                    par.set(d, Some(current));
                    queue.push(d);
                    assert forall|j: int| 0 <= j < head implies #[trigger] queue@[j] != target by {
                        assert(queue@[j] == q0[j]);
                    }
                } else {
                    proof {
                        lemma_order_skip(g, queue@, head as int, i as int, disc@, par@, lvl);
                    }
                }
                assert forall|x: int| 0 <= x < i + 1 implies disc@[#[trigger] g[current as int].dependencies[x] as int] by {
                    assert(g[current as int].dependencies[x] < n);
                }
                i = i + 1;
            }
            proof {
                lemma_advance(g, queue@, head as int, disc@, par@, lvl);
                lemma_order_advance(g, queue@, head as int, i as int, disc@, par@, lvl);
            }
            head = head + 1;
        }
        proof {
            assert(!disc@[target as int]) by {
                reveal(search_ok);
                if queue@.contains(target) {
                    let j = choose|j: int| 0 <= j < queue@.len() && queue@[j] == target;
                    assert(queue@[j] != target);
                }
            }
            if reachable(g, target as int) {
                let p = choose|p: Seq<usize>| #[trigger] root_path(g, p) && p.last() == target as int;
                lemma_all_found(g, queue@, disc@, par@, lvl, p);
            }
        }
        None
    }
}


impl Graph {
    /// The package that a requested name stands for.
    fn find_by_name(&self, requested: &Vec<char>) -> (r: Result<usize, String>)
        ensures
            r matches Ok(k) ==> lookup(self@, requested@) == Ok::<int, Seq<char>>(k as int),
            r matches Err(m) ==> lookup(self@, requested@) == Err::<int, Seq<char>>(m@),
    {
        let ghost g = self@;
        let ghost names = names_of(g);
        let mut k: usize = 0;
        while k < self.packages.len()
            invariant
                g == self@,
                names == names_of(g),
                k <= g.len(),
                index_of(names.take(k as int), requested@) == -1,
            decreases g.len() - k,
        {
            assert(names.take(k + 1).drop_last() == names.take(k as int));
            assert(names[k as int] == self.packages@[k as int]@.name);
            if seq_eq(self.packages[k].name.as_slice(), requested.as_slice()) {
                proof {
                    lemma_index_of_prefix(names, requested@, k + 1);
                }
                return Ok(k);
            }
            k = k + 1;
        }
        assert(names.take(names.len() as int) == names);
        let mut matches: Vec<usize> = Vec::new();
        let mut k: usize = 0;
        while k < self.packages.len()
            invariant
                g == self@,
                k <= g.len(),
                matches@ == case_matches(g.take(k as int), requested@),
            decreases g.len() - k,
        {
            assert(g.take(k + 1).drop_last() == g.take(k as int));
            assert(g[k as int] == self.packages@[k as int]@);
            if same_ignoring_case(self.packages[k].name.as_slice(), requested.as_slice()) {
                matches.push(k);
            }
            k = k + 1;
        }
        assert(g.take(g.len() as int) == g);
        if matches.len() == 1 {
            Ok(matches[0])
        } else if matches.len() == 0 {
            let mut m = chars_of("package '");
            extend(&mut m, requested.as_slice());
            extend_str(&mut m, "' is not installed");
            Err(string_of(m.as_slice()))
        } else {
            let mut m = chars_of("package name '");
            extend(&mut m, requested.as_slice());
            extend_str(&mut m, "' is ambiguous");
            Err(string_of(m.as_slice()))
        }
    }

    /// Explains why the package with the requested name is installed: it is a direct
    /// dependency, or it lies on a shortest chain of dependencies from the project.
    pub fn explain(&self, requested: &str) -> (r: Result<String, String>)
        ensures
            explains(self@, requested@, text_result(r)),
    {
        proof {
            use_type_invariant(self);
        }
        let count = self.packages.len();
        assert(self@.len() == count);
        let name = chars_of(requested);
        let target = match self.find_by_name(&name) {
            Ok(t) => t,
            Err(e) => {
                return Err(e);
            },
        };
        proof {
            if let Ok(t) = lookup(self@, name@) {
                if index_of(names_of(self@), name@) >= 0 {
                    lemma_index_of(names_of(self@), name@);
                } else {
                    lemma_case_matches_bounded(self@, name@);
                }
            }
        }
        assert(target < self@.len());
        let path = match self.shortest_path(target) {
            Some(p) => p,
            None => {
                assert(self@[target as int].name == self.packages@[target as int]@.name);
                let mut m = copy_chars(&self.packages[target].name);
                extend_str(&mut m, " is installed but not reachable from this project");
                return Err(string_of(m.as_slice()));
            },
        };
        assert(reachable(self@, target as int));
        let lab = self.label_of(target);
        let mut out = lab;
        if path.len() == 1 {
            extend_str(&mut out, " is a direct dependency of this project.\n");
            assert(out@ == explanation(self@, target as int, path@));
            proof {
                self.lemma_only_first_path(path@, target as int);
            }
            return Ok(string_of(out.as_slice()));
        }
        extend_str(&mut out, " is installed because:\n\nProject\n");
        let ghost base = out@;
        let mut i: usize = 0;
        while i < path.len()
            invariant
                first_shortest_path(self@, path@, target as int),
                i <= path@.len(),
                out@ == base + chain_lines(self@, path@, i as int),
            decreases path@.len() - i,
        {
            let mut j: usize = 0;
            while j < i
                invariant
                    j <= i,
                    out@ == base + chain_lines(self@, path@, i as int) + repeat("    "@, j as int),
                decreases i - j,
            {
                extend_str(&mut out, "    ");
                j = j + 1;
            }
            extend_str(&mut out, "`-- ");
            assert(path@[i as int] < self@.len());
            let l = self.label_of(path[i]);
            extend(&mut out, l.as_slice());
            extend_str(&mut out, "\n");
            i = i + 1;
        }
        assert(out@ == explanation(self@, target as int, path@));
        proof {
            self.lemma_only_first_path(path@, target as int);
        }
        Ok(string_of(out.as_slice()))
    }

    proof fn lemma_only_first_path(&self, path: Seq<usize>, t: int)
        requires
            self@.len() <= usize::MAX,
            first_shortest_path(self@, path, t),
        ensures
            forall|p: Seq<usize>| #[trigger] first_shortest_path(self@, p, t) ==> p == path,
    {
        assert forall|p: Seq<usize>| #[trigger] first_shortest_path(self@, p, t) implies p == path by {
            lemma_first_shortest_path_unique(self@, p, path, t);
        }
    }
}

/// A result of strings, as character sequences.
pub open spec fn text_result(r: Result<String, String>) -> Result<Seq<char>, Seq<char>> {
    match r {
        Ok(s) => Ok(s@),
        Err(e) => Err(e@),
    }
}

/// `r` is the answer to "why is `name` installed": the explanation along the first
/// shortest chain from the project, or why there is none.
pub open spec fn explains(g: Seq<PackageModel>, name: Seq<char>, r: Result<Seq<char>, Seq<char>>) -> bool {
    match lookup(g, name) {
        Err(m) => r == Err::<Seq<char>, Seq<char>>(m),
        Ok(t) => if reachable(g, t) {
            &&& r is Ok
            &&& exists|p: Seq<usize>| #[trigger] first_shortest_path(g, p, t)
            &&& forall|p: Seq<usize>| #[trigger] first_shortest_path(g, p, t) ==> r->Ok_0 == explanation(g, t, p)
        } else {
            r == Err::<Seq<char>, Seq<char>>(g[t].name + " is installed but not reachable from this project"@)
        },
    }
}

proof fn lemma_case_matches_bounded(g: Seq<PackageModel>, name: Seq<char>)
    ensures
        forall|i: int| 0 <= i < case_matches(g, name).len() ==> #[trigger] case_matches(g, name)[i] < g.len(),
    decreases g.len(),
{
    if g.len() > 0 {
        lemma_case_matches_bounded(g.drop_last(), name);
        let r = case_matches(g.drop_last(), name);
        if eq_ignore_case(g.last().name, name) {
            assert forall|i: int| 0 <= i < r.len() + 1 implies #[trigger] r.push((g.len() - 1) as usize)[i] < g.len() by {
                if i < r.len() {
                    assert(r.push((g.len() - 1) as usize)[i] == r[i]);
                }
            }
        }
    }
}


/// The graph that `output` describes, if it reads as one.
pub open spec fn read_graph(output: Seq<char>, g: Seq<PackageModel>) -> bool {
    &&& graph_wf(g)
    &&& read_lines(lines_of(output)) matches Ok(rec) && describes(g, rec.0, rec.1)
}

/// Two strictly ordered sequences of ids with the same members are the same sequence.
proof fn lemma_sorted_same_members(a: Seq<Seq<char>>, b: Seq<Seq<char>>)
    requires
        forall|i: int, j: int| 0 <= i < j < a.len() ==> seq_lt(#[trigger] a[i], #[trigger] a[j]),
        forall|i: int, j: int| 0 <= i < j < b.len() ==> seq_lt(#[trigger] b[i], #[trigger] b[j]),
        forall|x: Seq<char>| a.contains(x) <==> b.contains(x),
    ensures
        a == b,
    decreases a.len(),
{
    if a.len() == 0 {
        if b.len() > 0 {
            assert(b.contains(b[0]));
        }
    } else if b.len() == 0 {
        assert(a.contains(a[0]));
    } else {
        // The first of each is the least member, so they agree.
        assert(a.contains(a[0]));
        let j = choose|j: int| 0 <= j < b.len() && b[j] == a[0];
        assert(b.contains(b[0]));
        let i = choose|i: int| 0 <= i < a.len() && a[i] == b[0];
        if i > 0 && j > 0 {
            lemma_seq_lt_asymmetric(a[0], a[i]);
            assert(seq_lt(a[0], a[i]));
            assert(seq_lt(b[0], b[j]));
        }
        if i > 0 && j == 0 {
            assert(seq_lt(a[0], a[i]));
            lemma_seq_lt_irreflexive(a[0]);
        }
        if i == 0 && j > 0 {
            assert(seq_lt(b[0], b[j]));
            lemma_seq_lt_irreflexive(b[0]);
        }
        assert(a[0] == b[0]);
        let a1 = a.drop_first();
        let b1 = b.drop_first();
        assert forall|x: Seq<char>| a1.contains(x) <==> b1.contains(x) by {
            if a1.contains(x) {
                let k = choose|k: int| 0 <= k < a1.len() && a1[k] == x;
                assert(a[k + 1] == x);
                assert(seq_lt(a[0], a[k + 1]));
                lemma_seq_lt_irreflexive(x);
                assert(b.contains(x));
                let m = choose|m: int| 0 <= m < b.len() && b[m] == x;
                assert(m != 0);
                assert(b1[m - 1] == x);
            }
            if b1.contains(x) {
                let k = choose|k: int| 0 <= k < b1.len() && b1[k] == x;
                assert(b[k + 1] == x);
                assert(seq_lt(b[0], b[k + 1]));
                lemma_seq_lt_irreflexive(x);
                assert(a.contains(x));
                let m = choose|m: int| 0 <= m < a.len() && a[m] == x;
                assert(m != 0);
                assert(a1[m - 1] == x);
            }
        }
        assert forall|i: int, j: int| 0 <= i < j < a1.len() implies seq_lt(#[trigger] a1[i], #[trigger] a1[j]) by {
            assert(a1[i] == a[i + 1] && a1[j] == a[j + 1]);
        }
        assert forall|i: int, j: int| 0 <= i < j < b1.len() implies seq_lt(#[trigger] b1[i], #[trigger] b1[j]) by {
            assert(b1[i] == b[i + 1] && b1[j] == b[j + 1]);
        }
        lemma_sorted_same_members(a1, b1);
        assert(a == seq![a[0]] + a1);
        assert(b == seq![b[0]] + b1);
    }
}

/// Graph data describes one graph only: reading the same lines always gives the same
/// packages, in the same order, with the same dependencies.
pub proof fn lemma_described_graph_unique(g1: Seq<PackageModel>, g2: Seq<PackageModel>, ns: Seq<NodeLine>, es: Seq<EdgeLine>)
    requires
        describes(g1, ns, es),
        describes(g2, ns, es),
    ensures
        g1 == g2,
{
    let a = ids_of(g1);
    let b = ids_of(g2);
    assert forall|i: int, j: int| 0 <= i < j < a.len() implies seq_lt(#[trigger] a[i], #[trigger] a[j]) by {
        assert(a[i] == g1[i].id && a[j] == g1[j].id);
    }
    assert forall|i: int, j: int| 0 <= i < j < b.len() implies seq_lt(#[trigger] b[i], #[trigger] b[j]) by {
        assert(b[i] == g2[i].id && b[j] == g2[j].id);
    }
    assert forall|x: Seq<char>| a.contains(x) <==> b.contains(x) by {
        if a.contains(x) {
            let k = choose|k: int| 0 <= k < a.len() && a[k] == x;
            assert(g1[k].id == x);
            assert(node_map(ns).contains_key(x));
            let m = choose|m: int| 0 <= m < g2.len() && #[trigger] g2[m].id == x;
            assert(b[m] == x);
        }
        if b.contains(x) {
            let k = choose|k: int| 0 <= k < b.len() && b[k] == x;
            assert(g2[k].id == x);
            assert(node_map(ns).contains_key(x));
            let m = choose|m: int| 0 <= m < g1.len() && #[trigger] g1[m].id == x;
            assert(a[m] == x);
        }
    }
    lemma_sorted_same_members(a, b);
    assert(g1.len() == g2.len());
    assert forall|k: int| 0 <= k < g1.len() implies #[trigger] g1[k].name == g2[k].name by {
        assert(a[k] == b[k]);
        assert(node_map(ns)[g1[k].id] == node_map(ns)[g2[k].id]);
    }
    assert(names_of(g1) == names_of(g2));
    assert forall|k: int| 0 <= k < g1.len() implies #[trigger] g1[k] == g2[k] by {
        assert(a[k] == b[k]);
        assert(node_map(ns)[g1[k].id] == node_map(ns)[g2[k].id]);
        assert(g1[k].dependencies == sort_by_name(names_of(g1), edge_targets(ids_of(g1), es, k)));
        assert(g2[k].dependencies == sort_by_name(names_of(g2), edge_targets(ids_of(g2), es, k)));
    }
    assert(g1 == g2);
}

/// The dependency tree drawn from the graph data that Julia printed.
pub fn tree(output: &str) -> (r: Result<String, String>)
    ensures
        match graph_error(output@) {
            Some(m) => text_result(r) == Err::<Seq<char>, Seq<char>>(m),
            None => {
                &&& r is Ok
                &&& exists|g: Seq<PackageModel>| #[trigger] read_graph(output@, g)
                &&& forall|g: Seq<PackageModel>| #[trigger] read_graph(output@, g) ==> tree_text(g) == r->Ok_0@
            },
        },
{
    let graph = match Graph::parse(output) {
        Ok(g) => g,
        Err(e) => {
            return Err(e);
        },
    };
    proof {
        use_type_invariant(&graph);
    }
    let text = graph.render_tree();
    assert(read_graph(output@, graph@));
    proof {
        let rec = read_lines(lines_of(output@))->Ok_0;
        assert forall|g: Seq<PackageModel>| #[trigger] read_graph(output@, g) implies tree_text(g) == text@ by {
            lemma_described_graph_unique(g, graph@, rec.0, rec.1);
        }
    }
    Ok(text)
}

/// Why `package` is installed, from the graph data that Julia printed.
pub fn why(output: &str, package: &str) -> (r: Result<String, String>)
    ensures
        match graph_error(output@) {
            Some(m) => text_result(r) == Err::<Seq<char>, Seq<char>>(m),
            None => {
                &&& exists|g: Seq<PackageModel>| #[trigger] read_graph(output@, g)
                &&& forall|g: Seq<PackageModel>| #[trigger] read_graph(output@, g) ==> explains(g, package@, text_result(r))
            },
        },
{
    let graph = match Graph::parse(output) {
        Ok(g) => g,
        Err(e) => {
            return Err(e);
        },
    };
    proof {
        use_type_invariant(&graph);
    }
    let r = graph.explain(package);
    assert(read_graph(output@, graph@));
    proof {
        let rec = read_lines(lines_of(output@))->Ok_0;
        assert forall|g: Seq<PackageModel>| #[trigger] read_graph(output@, g) implies explains(g, package@, text_result(r)) by {
            lemma_described_graph_unique(g, graph@, rec.0, rec.1);
        }
    }
    r
}

} // verus!
