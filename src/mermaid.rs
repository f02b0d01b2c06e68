//! The flowchart language compiled into a [`Graph`]: the merge rule for
//! repeated ids, the cross product of an edge between clusters, and
//! `parse_mermaid`, which parses a text by the grammar in [`crate::flowchart`]
//! and compiles it.
use vstd::prelude::*;
use crate::flowchart::{flowchart_lines, parse_flowchart};
use crate::text::ParseError;
use crate::graph::{absorb, copy_text, empty_node, merge_attr, merge_text, opt_view, Edge, EdgeView, Graph, Node, NodeView};

verus! {

/// One node occurrence on a line: id, label, command text, clipboard text.
pub type NodeDecl = (String, Option<String>, Option<String>, Option<String>);

/// One edge occurrence on a line: whether it is directed, and its label.
pub type EdgeDecl = (bool, Option<String>);

/// One line of a flowchart: node clusters separated by edges, so that
/// edge `k` links cluster `k` to cluster `k + 1`.
pub struct Line {
    pub clusters: Vec<Vec<NodeDecl>>,
    pub edges: Vec<EdgeDecl>,
}

pub type DeclView = (Seq<char>, Option<Seq<char>>, Option<Seq<char>>, Option<Seq<char>>);

pub type EdgeDeclView = (bool, Option<Seq<char>>);

pub struct LineView {
    pub clusters: Seq<Seq<DeclView>>,
    pub edges: Seq<EdgeDeclView>,
}

pub open spec fn decl_view(d: NodeDecl) -> DeclView {
    (d.0@, opt_view(d.1), opt_view(d.2), opt_view(d.3))
}

pub open spec fn edge_decl_view(e: EdgeDecl) -> EdgeDeclView {
    (e.0, opt_view(e.1))
}

impl View for Line {
    type V = LineView;

    open spec fn view(&self) -> LineView {
        LineView {
            clusters: self.clusters@.map_values(|c: Vec<NodeDecl>| c@.map_values(|d: NodeDecl| decl_view(d))),
            edges: self.edges@.map_values(|e: EdgeDecl| edge_decl_view(e)),
        }
    }
}

impl LineView {
    /// Every edge stands between two clusters.
    pub open spec fn well_formed(&self) -> bool {
        self.clusters.len() == self.edges.len() + 1
    }
}

/// `n` with one occurrence's attributes merged in.
pub open spec fn absorb_decl(n: NodeView, d: DeclView) -> NodeView {
    absorb(n, d.1, d.2, d.3)
}

/// `n` with `e` appended to its outgoing edges.
pub open spec fn push_edge(n: NodeView, e: EdgeView) -> NodeView {
    NodeView { outputs: n.outputs.push(e), ..n }
}

/// What `g` stores under `id`, or an empty node.
pub open spec fn entry_or_empty(g: Map<Seq<char>, NodeView>, id: Seq<char>) -> NodeView {
    if g.contains_key(id) {
        g[id]
    } else {
        empty_node()
    }
}

/// One directed edge from `src` to `dst`: the source's entry gets the
/// edge and the source occurrence's attributes, the destination's entry
/// gets the destination occurrence's attributes; absent entries start empty.
pub open spec fn add_edge(
    g: Map<Seq<char>, NodeView>,
    src: DeclView,
    label: Option<Seq<char>>,
    dst: DeclView,
) -> Map<Seq<char>, NodeView> {
    let s = push_edge(
        absorb_decl(entry_or_empty(g, src.0), src),
        EdgeView { destination: dst.0, label },
    );
    let g1 = g.insert(src.0, s);
    g1.insert(dst.0, absorb_decl(entry_or_empty(g1, dst.0), dst))
}

/// Edges from `src` to each of `dsts`, in order.
pub open spec fn link_to_all(
    g: Map<Seq<char>, NodeView>,
    src: DeclView,
    label: Option<Seq<char>>,
    dsts: Seq<DeclView>,
) -> Map<Seq<char>, NodeView>
    decreases dsts.len(),
{
    if dsts.len() == 0 {
        g
    } else {
        add_edge(link_to_all(g, src, label, dsts.drop_last()), src, label, dsts.last())
    }
}

/// Edges from each of `srcs` to each of `dsts`: the full cross product,
/// source by source.
pub open spec fn link_all(
    g: Map<Seq<char>, NodeView>,
    srcs: Seq<DeclView>,
    label: Option<Seq<char>>,
    dsts: Seq<DeclView>,
) -> Map<Seq<char>, NodeView>
    decreases srcs.len(),
{
    if srcs.len() == 0 {
        g
    } else {
        link_to_all(link_all(g, srcs.drop_last(), label, dsts), srcs.last(), label, dsts)
    }
}

/// The first `k` edges of `line` applied to `g`; undirected ones add nothing.
pub open spec fn apply_edges(g: Map<Seq<char>, NodeView>, line: LineView, k: int) -> Map<
    Seq<char>,
    NodeView,
>
    decreases k,
{
    if k <= 0 {
        g
    } else {
        let g1 = apply_edges(g, line, k - 1);
        if line.edges[k - 1].0 {
            link_all(g1, line.clusters[k - 1], line.edges[k - 1].1, line.clusters[k])
        } else {
            g1
        }
    }
}

/// The lines applied to `g` in order.
pub open spec fn apply_lines(g: Map<Seq<char>, NodeView>, lines: Seq<LineView>) -> Map<
    Seq<char>,
    NodeView,
>
    decreases lines.len(),
{
    if lines.len() == 0 {
        g
    } else {
        let l = lines.last();
        apply_edges(apply_lines(g, lines.drop_last()), l, l.edges.len() as int)
    }
}

/// The graph that a sequence of lines compiles to.
pub open spec fn compile(lines: Seq<LineView>) -> Map<Seq<char>, NodeView> {
    apply_lines(Map::empty(), lines)
}

fn copy_decl(d: &NodeDecl) -> (r: NodeDecl)
    ensures
        decl_view(r) == decl_view(*d),
{
    (d.0.clone(), copy_text(&d.1), copy_text(&d.2), copy_text(&d.3))
}

/// Adds an edge to a source node's entry and merges in the source
/// occurrence's attributes.
pub fn modify_src_entry(entry: &mut Node, src_node: NodeDecl, edge: EdgeDecl, dest_node: NodeDecl)
    ensures
        final(entry)@ == push_edge(
            absorb_decl(old(entry)@, decl_view(src_node)),
            EdgeView { destination: dest_node.0@, label: opt_view(edge.1) },
        ),
{
    let ghost before = entry@;
    entry.outputs.push(Edge { destination: dest_node.0, label: edge.1 });
    merge_text(&mut entry.label, src_node.1);
    merge_text(&mut entry.cmd, src_node.2);
    merge_text(&mut entry.cb, src_node.3);
    assert(entry@.outputs =~= before.outputs.push(entry.outputs@.last()@));
}

/// Merges a destination occurrence's attributes into its entry.
pub fn modify_dest_entry(entry: &mut Node, dest_node: NodeDecl)
    ensures
        final(entry)@ == absorb_decl(old(entry)@, decl_view(dest_node)),
{
    merge_text(&mut entry.label, dest_node.1);
    merge_text(&mut entry.cmd, dest_node.2);
    merge_text(&mut entry.cb, dest_node.3);
}

fn entry_of(graph: &Graph, id: &String) -> (r: Node)
    ensures
        r@ == entry_or_empty(graph@, id@),
{
    match graph.get(id.as_str()) {
        Some(n) => n.copy(),
        None => Node::empty(),
    }
}

fn link_one(graph: &mut Graph, src: &NodeDecl, label: &Option<String>, dst: &NodeDecl)
    ensures
        final(graph)@ == add_edge(old(graph)@, decl_view(*src), opt_view(*label), decl_view(*dst)),
{
    let mut s = entry_of(graph, &src.0);
    modify_src_entry(&mut s, copy_decl(src), (true, copy_text(label)), copy_decl(dst));
    graph.put(src.0.clone(), s);
    let mut d = entry_of(graph, &dst.0);
    modify_dest_entry(&mut d, copy_decl(dst));
    graph.put(dst.0.clone(), d);
}

fn link_clusters(graph: &mut Graph, srcs: &Vec<NodeDecl>, label: &Option<String>, dsts: &Vec<NodeDecl>)
    ensures
        final(graph)@ == link_all(
            old(graph)@,
            srcs@.map_values(|d: NodeDecl| decl_view(d)),
            opt_view(*label),
            dsts@.map_values(|d: NodeDecl| decl_view(d)),
        ),
{
    let ghost g0 = graph@;
    let ghost sv = srcs@.map_values(|d: NodeDecl| decl_view(d));
    let ghost dv = dsts@.map_values(|d: NodeDecl| decl_view(d));
    let mut i: usize = 0;
    while i < srcs.len()
        invariant
            i <= srcs@.len(),
            sv == srcs@.map_values(|d: NodeDecl| decl_view(d)),
            dv == dsts@.map_values(|d: NodeDecl| decl_view(d)),
            graph@ == link_all(g0, sv.take(i as int), opt_view(*label), dv),
        decreases srcs.len() - i,
    {
        let ghost gi = graph@;
        let mut j: usize = 0;
        while j < dsts.len()
            invariant
                i < srcs@.len(),
                j <= dsts@.len(),
                sv == srcs@.map_values(|d: NodeDecl| decl_view(d)),
                dv == dsts@.map_values(|d: NodeDecl| decl_view(d)),
                graph@ == link_to_all(gi, sv[i as int], opt_view(*label), dv.take(j as int)),
            decreases dsts.len() - j,
        {
            link_one(graph, &srcs[i], label, &dsts[j]);
            proof {
                assert(dv.take(j + 1).drop_last() =~= dv.take(j as int));
            }
            j = j + 1;
        }
        proof {
            assert(dv.take(j as int) =~= dv);
            assert(sv.take(i + 1).drop_last() =~= sv.take(i as int));
        }
        i = i + 1;
    }
    proof {
        assert(sv.take(i as int) =~= sv);
    }
}

/// Applies one line's directed edges to `graph`.
fn apply_line(graph: &mut Graph, line: &Line)
    requires
        line@.well_formed(),
    ensures
        final(graph)@ == apply_edges(old(graph)@, line@, line@.edges.len() as int),
{
    let ghost g0 = graph@;
    let mut k: usize = 0;
    while k < line.edges.len()
        invariant
            k <= line@.edges.len(),
            line@.well_formed(),
            graph@ == apply_edges(g0, line@, k as int),
        decreases line.edges.len() - k,
    {
        if line.edges[k].0 {
            link_clusters(graph, &line.clusters[k], &line.edges[k].1, &line.clusters[k + 1]);
        }
        k = k + 1;
    }
}

/// Compiles parsed lines into a graph.
pub fn compile_lines(lines: &Vec<Line>) -> (r: Graph)
    requires
        forall|i: int| 0 <= i < lines@.len() ==> (#[trigger] lines@[i])@.well_formed(),
    ensures
        r@ == compile(lines@.map_values(|l: Line| l@)),
{
    let ghost lv = lines@.map_values(|l: Line| l@);
    let mut graph = Graph::new();
    let mut i: usize = 0;
    while i < lines.len()
        invariant
            i <= lines@.len(),
            lv == lines@.map_values(|l: Line| l@),
            forall|m: int| 0 <= m < lines@.len() ==> (#[trigger] lines@[m])@.well_formed(),
            graph@ == apply_lines(Map::empty(), lv.take(i as int)),
        decreases lines.len() - i,
    {
        apply_line(&mut graph, &lines[i]);
        proof {
            assert(lv.take(i + 1).drop_last() =~= lv.take(i as int));
        }
        i = i + 1;
    }
    proof {
        assert(lv.take(i as int) =~= lv);
    }
    graph
}


/// A line that holds one directed edge from `src` to `dst`.
pub open spec fn edge_line(src: DeclView, label: Option<Seq<char>>, dst: DeclView) -> LineView {
    LineView { clusters: seq![seq![src], seq![dst]], edges: seq![(true, label)] }
}

/// Merging across lines: when `b` is first declared as the destination
/// of `a` and a later line leads from a bare occurrence of `b` to `c`,
/// `b` keeps the attributes of its first occurrence and has exactly the
/// one edge to `c`.
pub proof fn lemma_merge_across_lines(
    a: DeclView,
    l1: Option<Seq<char>>,
    b1: DeclView,
    b2: DeclView,
    l2: Option<Seq<char>>,
    c: DeclView,
)
    requires
        b1.0 == b2.0,
        a.0 != b1.0,
        c.0 != b1.0,
        b2.1 is None && b2.2 is None && b2.3 is None,
    ensures
        ({
            let g = compile(seq![edge_line(a, l1, b1), edge_line(b2, l2, c)]);
            &&& g.contains_key(b1.0)
            &&& g[b1.0] == NodeView {
                outputs: seq![EdgeView { destination: c.0, label: l2 }],
                label: merge_attr(None, b1.1),
                cmd: merge_attr(None, b1.2),
                cb: merge_attr(None, b1.3),
            }
        }),
{
    let lines = seq![edge_line(a, l1, b1), edge_line(b2, l2, c)];
    assert(lines.drop_last() =~= seq![edge_line(a, l1, b1)]);
    assert(lines.drop_last().drop_last() =~= Seq::<LineView>::empty());
    let line1 = edge_line(a, l1, b1);
    let line2 = edge_line(b2, l2, c);
    assert(seq![b1].drop_last() =~= Seq::<DeclView>::empty());
    assert(seq![a].drop_last() =~= Seq::<DeclView>::empty());
    assert(seq![c].drop_last() =~= Seq::<DeclView>::empty());
    assert(seq![b2].drop_last() =~= Seq::<DeclView>::empty());
    let g0 = Map::<Seq<char>, NodeView>::empty();
    assert(link_to_all(g0, a, l1, Seq::<DeclView>::empty()) == g0);
    assert(link_to_all(g0, a, l1, seq![b1]) == add_edge(g0, a, l1, b1));
    assert(link_all(g0, Seq::<DeclView>::empty(), l1, seq![b1]) == g0);
    assert(link_all(g0, seq![a], l1, seq![b1]) == add_edge(g0, a, l1, b1));
    let g1 = add_edge(g0, a, l1, b1);
    assert(apply_edges(g0, line1, 0) == g0);
    assert(line1.clusters[0] == seq![a] && line1.clusters[1] == seq![b1] && line1.edges[0] == (true, l1));
    assert(apply_edges(g0, line1, 1) == g1);
    assert(compile(seq![line1]) == g1) by {
        assert(apply_lines(g0, Seq::<LineView>::empty()) == g0);
    }
    assert(link_to_all(g1, b2, l2, Seq::<DeclView>::empty()) == g1);
    assert(link_to_all(g1, b2, l2, seq![c]) == add_edge(g1, b2, l2, c));
    assert(link_all(g1, Seq::<DeclView>::empty(), l2, seq![c]) == g1);
    assert(link_all(g1, seq![b2], l2, seq![c]) == add_edge(g1, b2, l2, c));
    assert(apply_edges(g1, line2, 0) == g1);
    assert(line2.clusters[0] == seq![b2] && line2.clusters[1] == seq![c] && line2.edges[0] == (true, l2));
    assert(apply_edges(g1, line2, 1) == add_edge(g1, b2, l2, c));
    assert(Seq::<EdgeView>::empty().push(EdgeView { destination: c.0, label: l2 }) =~= seq![EdgeView { destination: c.0, label: l2 }]);
}

/// The destination ids of edges from one source, with a shared label.
pub open spec fn edges_to(dsts: Seq<DeclView>, label: Option<Seq<char>>) -> Seq<EdgeView> {
    dsts.map_values(|d: DeclView| EdgeView { destination: d.0, label })
}

pub open spec fn ids_of(ds: Seq<DeclView>) -> Seq<Seq<char>> {
    ds.map_values(|d: DeclView| d.0)
}

proof fn lemma_link_to_all(
    g: Map<Seq<char>, NodeView>,
    src: DeclView,
    label: Option<Seq<char>>,
    dsts: Seq<DeclView>,
)
    requires
        !ids_of(dsts).contains(src.0),
    ensures
        ({
            let r = link_to_all(g, src, label, dsts);
            &&& dsts.len() > 0 ==> r.contains_key(src.0)
            &&& dsts.len() > 0 ==> r[src.0].outputs == entry_or_empty(g, src.0).outputs + edges_to(dsts, label)
            &&& forall|k: Seq<char>|
                k != src.0 && !ids_of(dsts).contains(k) ==> (#[trigger] r.contains_key(k) <==> g.contains_key(k))
                    && (g.contains_key(k) ==> r[k] == g[k])
        }),
    decreases dsts.len(),
{
    if dsts.len() > 0 {
        let init = dsts.drop_last();
        assert(ids_of(init) =~= ids_of(dsts).drop_last());
        assert(ids_of(dsts).last() == dsts.last().0);
        lemma_link_to_all(g, src, label, init);
        let mid = link_to_all(g, src, label, init);
        assert(edges_to(dsts, label) =~= edges_to(init, label).push(EdgeView { destination: dsts.last().0, label }));
        if init.len() == 0 {
            assert(edges_to(init, label) =~= Seq::<EdgeView>::empty());
            assert(entry_or_empty(g, src.0).outputs + Seq::<EdgeView>::empty() =~= entry_or_empty(g, src.0).outputs);
            assert(mid == g);
        }
        assert((entry_or_empty(g, src.0).outputs + edges_to(init, label)).push(EdgeView { destination: dsts.last().0, label })
            =~= entry_or_empty(g, src.0).outputs + edges_to(dsts, label));
        assert forall|k: Seq<char>| k != src.0 && !ids_of(dsts).contains(k) implies (#[trigger] link_to_all(g, src, label, dsts).contains_key(k) <==> g.contains_key(k))
            && (g.contains_key(k) ==> link_to_all(g, src, label, dsts)[k] == g[k]) by {
            if ids_of(init).contains(k) {
                let j = choose|j: int| 0 <= j < ids_of(init).len() && ids_of(init)[j] == k;
                assert(ids_of(dsts)[j] == k);
            }
        }
    }
}

/// The cross product of a directed edge: when the ids of the two
/// clusters are all distinct, each source gains one edge to each
/// destination, in order, all carrying the edge's label; the other
/// entries of the graph are left as they were.
pub proof fn lemma_cross_product(
    g: Map<Seq<char>, NodeView>,
    srcs: Seq<DeclView>,
    label: Option<Seq<char>>,
    dsts: Seq<DeclView>,
)
    requires
        ids_of(srcs).no_duplicates(),
        dsts.len() > 0,
        forall|i: int| 0 <= i < srcs.len() ==> !ids_of(dsts).contains(#[trigger] srcs[i].0),
    ensures
        ({
            let r = link_all(g, srcs, label, dsts);
            &&& forall|i: int|
                0 <= i < srcs.len() ==> r.contains_key(#[trigger] srcs[i].0) && r[srcs[i].0].outputs
                    == entry_or_empty(g, srcs[i].0).outputs + edges_to(dsts, label)
            &&& forall|k: Seq<char>|
                !ids_of(srcs).contains(k) && !ids_of(dsts).contains(k) ==> (#[trigger] r.contains_key(k)
                    <==> g.contains_key(k)) && (g.contains_key(k) ==> r[k] == g[k])
        }),
    decreases srcs.len(),
{
    if srcs.len() > 0 {
        let init = srcs.drop_last();
        let last = srcs.last();
        assert(ids_of(init) =~= ids_of(srcs).drop_last());
        assert(ids_of(srcs)[srcs.len() - 1] == last.0);
        assert(ids_of(init).no_duplicates());
        assert(!ids_of(init).contains(last.0)) by {
            if ids_of(init).contains(last.0) {
                let j = choose|j: int| 0 <= j < ids_of(init).len() && ids_of(init)[j] == last.0;
                assert(ids_of(srcs)[j] == ids_of(srcs)[srcs.len() - 1]);
            }
        }
        assert forall|i: int| 0 <= i < init.len() implies !ids_of(dsts).contains(#[trigger] init[i].0) by {
            assert(init[i] == srcs[i]);
        }
        lemma_cross_product(g, init, label, dsts);
        let mid = link_all(g, init, label, dsts);
        let r = link_all(g, srcs, label, dsts);
        assert(r == link_to_all(mid, last, label, dsts));
        assert(!ids_of(dsts).contains(srcs[srcs.len() - 1].0));
        lemma_link_to_all(mid, last, label, dsts);
        assert(entry_or_empty(mid, last.0) == entry_or_empty(g, last.0));
        assert forall|i: int| 0 <= i < srcs.len() implies link_all(g, srcs, label, dsts).contains_key(#[trigger] srcs[i].0)
            && link_all(g, srcs, label, dsts)[srcs[i].0].outputs == entry_or_empty(g, srcs[i].0).outputs + edges_to(dsts, label) by {
            if i < srcs.len() - 1 {
                assert(srcs[i] == init[i]);
                assert(ids_of(srcs)[i] == srcs[i].0);
                assert(!ids_of(dsts).contains(srcs[i].0));
                assert(srcs[i].0 != last.0);
                assert(mid.contains_key(init[i].0));
                assert(r.contains_key(srcs[i].0));
                assert(r[srcs[i].0] == mid[srcs[i].0]);
            } else {
                assert(srcs[i] == last);
            }
        }
        assert forall|k: Seq<char>| !ids_of(srcs).contains(k) && !ids_of(dsts).contains(k) implies (#[trigger] link_all(g, srcs, label, dsts).contains_key(k)
            <==> g.contains_key(k)) && (g.contains_key(k) ==> link_all(g, srcs, label, dsts)[k] == g[k]) by {
            assert(k != last.0);
            if ids_of(init).contains(k) {
                let j = choose|j: int| 0 <= j < ids_of(init).len() && ids_of(init)[j] == k;
                assert(ids_of(srcs)[j] == k);
            }
        }
    }
}

/// Compiles a flowchart text into its graph: the first non-blank,
/// non-comment line is the header, every later one a line of clusters and
/// edges. Fails on the first line that breaks the grammar.
pub fn parse_mermaid(flowchart_string: &str) -> (r: Result<Graph, ParseError>)
    requires
        flowchart_string@.len() < usize::MAX,
    ensures
        match flowchart_lines(flowchart_string@) {
            Ok(lines) => r is Ok && r->Ok_0@ == compile(lines),
            Err(n) => r is Err && r->Err_0.line == n,
        },
{
    match parse_flowchart(flowchart_string) {
        Ok(lines) => Ok(compile_lines(&lines)),
        Err(line) => Err(ParseError { line }),
    }
}

} // verus!
