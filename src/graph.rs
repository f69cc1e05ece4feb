use vstd::prelude::*;
use crate::kind::{DepKind, ExtraDeps};
use crate::sums::{
    count_some, lemma_count_some_fill, lemma_count_some_le_len, lemma_sum_le, lemma_sum_take_le,
    lemma_count_some_none, lemma_sum_take_step, lemma_sum_zeros, lemma_sum_update, seq_sum,
};

verus! {

/// petgraph's `Graph`, held opaquely; its contents are read through the
/// wrappers below.
#[verifier::external_type_specification]
#[verifier::external_body]
#[verifier::reject_recursive_types(N)]
#[verifier::reject_recursive_types(E)]
#[verifier::reject_recursive_types(Ty)]
#[verifier::reject_recursive_types(Ix)]
pub struct ExPetgraphGraph<N, E, Ty, Ix>(petgraph::Graph<N, E, Ty, Ix>);

/// petgraph's marker for directed graphs, the default of `Graph`.
#[verifier::external_type_specification]
#[verifier::external_body]
pub struct ExDirected(petgraph::Directed);

/// The package index held by each node of a petgraph graph, in node-index order.
pub uninterp spec fn petgraph_nodes(g: petgraph::Graph<usize, DepKind>) -> Seq<usize>;

/// The edges of a petgraph graph as (source, target, kind), in edge-index order.
pub uninterp spec fn petgraph_edges(g: petgraph::Graph<usize, DepKind>) -> Seq<(usize, usize, DepKind)>;

/// Relies on petgraph's `Graph::new`: a graph with no nodes and no edges.
#[verifier::external_body]
fn petgraph_new() -> (g: petgraph::Graph<usize, DepKind>)
    ensures
        petgraph_nodes(g) == Seq::<usize>::empty(),
        petgraph_edges(g) == Seq::<(usize, usize, DepKind)>::empty(),
{
    petgraph::Graph::new()
}

/// Relies on petgraph's `Graph::add_node`: the node is appended and its index
/// is the former node count. It panics when the count reaches `u32::MAX`.
#[verifier::external_body]
fn petgraph_add_node(g: &mut petgraph::Graph<usize, DepKind>, weight: usize) -> (r: usize)
    requires
        petgraph_nodes(*old(g)).len() < u32::MAX,
    ensures
        r == petgraph_nodes(*old(g)).len(),
        petgraph_nodes(*final(g)) == petgraph_nodes(*old(g)).push(weight),
        petgraph_edges(*final(g)) == petgraph_edges(*old(g)),
{
    g.add_node(weight).index()
}

/// Relies on petgraph's `Graph::add_edge`: the edge is appended. It panics
/// when an endpoint is not a node or the edge count reaches `u32::MAX`.
#[verifier::external_body]
fn petgraph_add_edge(g: &mut petgraph::Graph<usize, DepKind>, a: usize, b: usize, kind: DepKind)
    requires
        a < petgraph_nodes(*old(g)).len(),
        b < petgraph_nodes(*old(g)).len(),
        petgraph_edges(*old(g)).len() < u32::MAX,
    ensures
        petgraph_nodes(*final(g)) == petgraph_nodes(*old(g)),
        petgraph_edges(*final(g)) == petgraph_edges(*old(g)).push((a, b, kind)),
{
    g.add_edge(petgraph::graph::NodeIndex::new(a), petgraph::graph::NodeIndex::new(b), kind);
}

/// Relies on petgraph's `Graph::raw_edges`: every edge, in edge-index order.
#[verifier::external_body]
fn petgraph_edge_list(g: &petgraph::Graph<usize, DepKind>) -> (r: Vec<(usize, usize, DepKind)>)
    ensures
        r@ == petgraph_edges(*g),
{
    g.raw_edges().iter().map(|e| (e.source().index(), e.target().index(), e.weight)).collect()
}


/// Relies on petgraph's `Index<NodeIndex>` for `Graph`: the weight of node `i`.
/// It panics when `i` is not a node.
#[verifier::external_body]
fn petgraph_node_weight(g: &petgraph::Graph<usize, DepKind>, i: usize) -> (r: usize)
    requires
        i < petgraph_nodes(*g).len(),
        i < u32::MAX,
    ensures
        r == petgraph_nodes(*g)[i as int],
{
    g[petgraph::graph::NodeIndex::new(i)]
}

/// cargo-platform's `Platform`, a target name or a `cfg(..)` expression, held opaquely.
#[verifier::external_type_specification]
#[verifier::external_body]
pub struct ExPlatform(cargo_platform::Platform);

/// cargo-platform's `Cfg`, one active configuration flag, held opaquely.
#[verifier::external_type_specification]
#[verifier::external_body]
pub struct ExCfg(cargo_platform::Cfg);

/// Relies on cargo-platform's `Platform::matches`: whether a platform predicate
/// holds for a target name and a set of active cfgs. Nothing is assumed of the
/// verdict.
pub assume_specification[ cargo_platform::Platform::matches ](
    p: &cargo_platform::Platform,
    name: &str,
    cfg: &[cargo_platform::Cfg],
) -> bool;

/// One declared dependency of a resolved package.
pub struct ResolvedDep {
    /// Index of the package the resolver chose for this dependency.
    pub package: usize,
    pub kind: DepKind,
    /// Platform predicate under which the dependency applies, if any.
    pub platform: Option<cargo_platform::Platform>,
    /// Package that replaces the chosen one (a patch or path override), if any.
    pub replacement: Option<usize>,
}

impl ResolvedDep {
    /// The package the edge of this dependency points to.
    pub open spec fn target(&self) -> usize {
        match self.replacement {
            Some(r) => r,
            None => self.package,
        }
    }
}

/// A package of the resolved set; packages are identified by their index.
pub struct ResolvedPackage {
    pub name: String,
    pub version: String,
    pub license: Option<String>,
    pub repository: Option<String>,
    pub deps: Vec<ResolvedDep>,
}

/// Filters applied while the graph is built.
pub struct GraphConfig {
    /// Target triple, when known.
    pub target: Option<String>,
    /// Active configuration flags, when known.
    pub cfgs: Option<Vec<cargo_platform::Cfg>>,
    pub extra_deps: ExtraDeps,
}

/// The decisions that filter dependencies: the extra-deps policy, and for
/// each dependency (by package and position) whether its platform admits it.
pub struct DepFilter {
    pub extra_deps: ExtraDeps,
    pub admitted: Seq<Seq<bool>>,
}

/// The admission table has one entry per declared dependency.
pub open spec fn admission_shaped(packages: Seq<ResolvedPackage>, admitted: Seq<Seq<bool>>) -> bool {
    &&& admitted.len() == packages.len()
    &&& forall|q: int| 0 <= q < packages.len() ==> (#[trigger] admitted[q]).len() == packages[q].deps@.len()
}

/// Rows of a table of flags.
pub open spec fn table_view(t: Seq<Vec<bool>>) -> Seq<Seq<bool>> {
    t.map_values(|r: Vec<bool>| r@)
}

#[derive(Clone, Copy, Debug, PartialEq, Eq, Structural)]
pub enum GraphError {
    /// A declared dependency names no package of the resolved set.
    ResolutionInconsistency,
    /// The set has too many packages or dependencies for the graph's indices.
    TooLarge,
}

/// The include-when-unknown policy: a dependency is included without asking
/// its platform predicate when it has none, or when the target or the active
/// cfgs are unknown. Only with both known does the predicate decide.
pub open spec fn platform_certainly_admits(d: ResolvedDep, c: GraphConfig) -> bool {
    d.platform is None || c.target is None || c.cfgs is None
}

/// Total number of declared dependencies over all packages.
pub open spec fn total_deps(packages: Seq<ResolvedPackage>) -> nat {
    seq_sum(packages.map_values(|p: ResolvedPackage| p.deps@.len()))
}

/// The resolved set fits the graph's `u32` indices.
pub open spec fn fits_indices(packages: Seq<ResolvedPackage>) -> bool {
    packages.len() < u32::MAX && total_deps(packages) < u32::MAX
}

/// The root and every dependency target name a package of the set.
pub open spec fn resolution_consistent(packages: Seq<ResolvedPackage>, root: usize) -> bool {
    &&& root < packages.len()
    &&& forall|q: int, j: int|
        0 <= q < packages.len() && 0 <= j < packages[q].deps@.len()
            ==> (#[trigger] packages[q].deps@[j]).target() < packages.len()
}

/// Some edge of `es` enters node `k` from a node with a smaller index.
pub open spec fn entered_from_earlier(es: Seq<(usize, usize, DepKind)>, k: int) -> bool {
    exists|e: int| 0 <= e < es.len() && (#[trigger] es[e]).1 == k && es[e].0 < k
}

/// Representation of the package dependency graph: a petgraph graph whose
/// node weights are package indices, and the node of each package.
pub struct PackageGraph {
    pub graph: petgraph::Graph<usize, DepKind>,
    pub nodes: Vec<Option<usize>>,
}

impl PackageGraph {
    /// Package of each node, by node index.
    pub open spec fn node_packages(&self) -> Seq<usize> {
        petgraph_nodes(self.graph)
    }

    /// Edges as (source node, target node, kind).
    pub open spec fn edge_seq(&self) -> Seq<(usize, usize, DepKind)> {
        petgraph_edges(self.graph)
    }

    /// Whether an edge `a -> b` of kind `k` is present.
    pub open spec fn has_edge(&self, a: int, b: int, k: DepKind) -> bool {
        exists|e: int|
            0 <= e < self.edge_seq().len() && #[trigger] self.edge_seq()[e] == (
            a as usize,
            b as usize,
            k,
            )
    }

    /// Node `k` is entered by an edge from a node with a smaller index.
    pub open spec fn has_earlier_parent(&self, k: int) -> bool {
        entered_from_earlier(self.edge_seq(), k)
    }

    /// Node 0 is the root; each package has at most one node and the lookup
    /// agrees with the nodes; every edge joins two nodes.
    pub open spec fn wf(&self) -> bool {
        let n = self.nodes@.len();
        let ps = self.node_packages();
        let es = self.edge_seq();
        &&& 1 <= ps.len() <= n
        &&& n < u32::MAX
        &&& es.len() < u32::MAX
        &&& forall|k: int| 0 <= k < ps.len() ==> #[trigger] ps[k] < n && self.nodes@[ps[k] as int] == Some(k as usize)
        &&& forall|q: int|
            0 <= q < n && (#[trigger] self.nodes@[q]) is Some ==> self.nodes@[q].unwrap() < ps.len()
                && ps[self.nodes@[q].unwrap() as int] == q
        &&& forall|e: int| 0 <= e < es.len() ==> (#[trigger] es[e]).0 < ps.len() && es[e].1 < ps.len()
    }

    /// Number of nodes.
    pub fn node_count(&self) -> (r: usize)
        requires
            self.wf(),
        ensures
            r == self.node_packages().len(),
    {
        let v = petgraph_node_count(&self.graph);
        v
    }

    /// Package of node `i`.
    pub fn node_package(&self, i: usize) -> (r: usize)
        requires
            self.wf(),
            i < self.node_packages().len(),
        ensures
            r == self.node_packages()[i as int],
    {
        petgraph_node_weight(&self.graph, i)
    }

    /// Node of package `p`, if the package is in the graph.
    pub fn node_of(&self, p: usize) -> (r: Option<usize>)
        requires
            self.wf(),
        ensures
            p < self.nodes@.len() ==> r == self.nodes@[p as int],
            p >= self.nodes@.len() ==> r is None,
    {
        if p < self.nodes.len() {
            self.nodes[p]
        } else {
            None
        }
    }

    /// All edges, in the order they were added.
    pub fn edges(&self) -> (r: Vec<(usize, usize, DepKind)>)
        ensures
            r@ == self.edge_seq(),
    {
        petgraph_edge_list(&self.graph)
    }
}

/// Relies on petgraph's `Graph::node_count`: the number of nodes.
#[verifier::external_body]
fn petgraph_node_count(g: &petgraph::Graph<usize, DepKind>) -> (r: usize)
    ensures
        r == petgraph_nodes(*g).len(),
{
    g.node_count()
}


/// A dependency that a built graph may hold as an edge `a -> b` of kind `k`:
/// it is declared by the package of node `a`, points to the package of node
/// `b`, and has kind `k` allowed by the policy.
pub open spec fn dep_may_yield(d: ResolvedDep, c: DepFilter, target: usize, k: DepKind) -> bool {
    &&& d.target() == target
    &&& d.kind == k
    &&& c.extra_deps.spec_allows(d.kind)
}

/// Edge `x` comes from a declared dependency of the package of its source
/// node that survives the filters, where `ps` gives each node's package.
pub open spec fn edge_justified(
    packages: Seq<ResolvedPackage>,
    c: DepFilter,
    ps: Seq<usize>,
    x: (usize, usize, DepKind),
) -> bool {
    exists|j: int|
        0 <= j < packages[ps[x.0 as int] as int].deps@.len() && dep_may_yield(
            #[trigger] packages[ps[x.0 as int] as int].deps@[j],
            c,
            ps[x.1 as int],
            x.2,
        ) && c.admitted[ps[x.0 as int] as int][j]
}

/// Every edge of `es` is justified.
pub open spec fn edges_justified_by(
    packages: Seq<ResolvedPackage>,
    c: DepFilter,
    ps: Seq<usize>,
    es: Seq<(usize, usize, DepKind)>,
) -> bool {
    forall|e: int| 0 <= e < es.len() ==> #[trigger] edge_justified(packages, c, ps, es[e])
}

/// Every edge of `g` comes from a declared dependency that survives the filters.
pub open spec fn edges_justified(packages: Seq<ResolvedPackage>, c: DepFilter, g: PackageGraph) -> bool {
    edges_justified_by(packages, c, g.node_packages(), g.edge_seq())
}

/// Appending a justified edge, and nodes, keeps every edge justified.
proof fn lemma_justified_push(
    packages: Seq<ResolvedPackage>,
    c: DepFilter,
    ps0: Seq<usize>,
    es0: Seq<(usize, usize, DepKind)>,
    ps: Seq<usize>,
    x: (usize, usize, DepKind),
    j: int,
)
    requires
        edges_justified_by(packages, c, ps0, es0),
        ps0.len() <= ps.len(),
        forall|k: int| 0 <= k < ps0.len() ==> #[trigger] ps0[k] == ps[k],
        forall|e: int| 0 <= e < es0.len() ==> (#[trigger] es0[e]).0 < ps0.len() && es0[e].1 < ps0.len(),
        x.0 < ps.len(),
        x.1 < ps.len(),
        0 <= j < packages[ps[x.0 as int] as int].deps@.len(),
        dep_may_yield(packages[ps[x.0 as int] as int].deps@[j], c, ps[x.1 as int], x.2),
        c.admitted[ps[x.0 as int] as int][j],
    ensures
        edges_justified_by(packages, c, ps, es0.push(x)),
{
    let es = es0.push(x);
    assert forall|e: int| 0 <= e < es.len() implies #[trigger] edge_justified(packages, c, ps, es[e]) by {
        if e < es0.len() {
            assert(es[e] == es0[e]);
            assert(edge_justified(packages, c, ps0, es0[e]));
            assert(ps0[es0[e].0 as int] == ps[es0[e].0 as int]);
            assert(ps0[es0[e].1 as int] == ps[es0[e].1 as int]);
        } else {
            assert(es[e] == x);
        }
    }
}

/// Every dependency of the package of a node `a < upto` that the policy allows
/// and its platform certainly admits is an edge of `g`.
pub open spec fn edges_complete_upto(
    packages: Seq<ResolvedPackage>,
    c: DepFilter,
    g: PackageGraph,
    upto: int,
) -> bool {
    let ps = g.node_packages();
    forall|a: int, j: int|
        0 <= a < upto && 0 <= a < ps.len() && 0 <= j < packages[ps[a] as int].deps@.len()
            && c.extra_deps.spec_allows((#[trigger] packages[ps[a] as int].deps@[j]).kind)
            && c.admitted[ps[a] as int][j] ==> {
            let d = packages[ps[a] as int].deps@[j];
            &&& g.nodes@[d.target() as int] is Some
            &&& g.has_edge(a, g.nodes@[d.target() as int].unwrap() as int, d.kind)
        }
}

/// Every node but the root is entered by an edge from an earlier node, so every
/// node is reachable from the root.
pub open spec fn nodes_connected(g: PackageGraph) -> bool {
    forall|k: int| 0 < k < g.node_packages().len() ==> #[trigger] g.has_earlier_parent(k)
}

/// What a graph built from `packages` and `root` under `c` satisfies: the
/// set is consistent, the graph is well formed with the root at node 0, every
/// edge comes from a surviving dependency, every certainly surviving
/// dependency of a node is an edge, no dependency yields two edges, and
/// every node is reachable from the root.
pub open spec fn graph_built_from(packages: Seq<ResolvedPackage>, root: usize, c: DepFilter, g: PackageGraph) -> bool {
    &&& resolution_consistent(packages, root)
    &&& g.wf()
    &&& g.nodes@.len() == packages.len()
    &&& g.node_packages()[0] == root
    &&& edges_justified(packages, c, g)
    &&& exists|origin: Seq<int>|
        edge_origins(packages, c, g, origin) && origins_complete_upto(
            packages,
            c,
            g,
            origin,
            g.node_packages().len() as int,
        )
    &&& edges_complete_upto(packages, c, g, g.node_packages().len() as int)
    &&& nodes_connected(g)
}

/// Edge `e` comes from dependency `origin[e]` of the package of its source,
/// and the edges are ordered by source node, then by that dependency's
/// index: no dependency yields two edges.
pub open spec fn edge_origins(
    packages: Seq<ResolvedPackage>,
    c: DepFilter,
    g: PackageGraph,
    origin: Seq<int>,
) -> bool {
    let ps = g.node_packages();
    let es = g.edge_seq();
    &&& origin.len() == es.len()
    &&& forall|e: int|
        0 <= e < es.len() ==> 0 <= #[trigger] origin[e] < packages[ps[es[e].0 as int] as int].deps@.len()
            && dep_may_yield(packages[ps[es[e].0 as int] as int].deps@[origin[e]], c, ps[es[e].1 as int], es[e].2)
            && c.admitted[ps[es[e].0 as int] as int][origin[e]]
    &&& forall|e1: int, e2: int| 0 <= e1 < e2 < es.len() ==> #[trigger] origins_ordered(es, origin, e1, e2)
}

/// Some edge leaves node `a` from dependency `j` of its package.
pub open spec fn origin_listed(es: Seq<(usize, usize, DepKind)>, origin: Seq<int>, a: int, j: int) -> bool {
    exists|e: int| 0 <= e < es.len() && es[e].0 as int == a && #[trigger] origin[e] == j
}

/// Each dependency of the package of a node `a < upto` that the policy allows
/// and its platform admits yields an edge of its own.
pub open spec fn origins_complete_upto(
    packages: Seq<ResolvedPackage>,
    c: DepFilter,
    g: PackageGraph,
    origin: Seq<int>,
    upto: int,
) -> bool {
    let ps = g.node_packages();
    forall|a: int, j: int|
        0 <= a < upto && 0 <= a < ps.len() && 0 <= j < packages[ps[a] as int].deps@.len()
            && c.extra_deps.spec_allows((#[trigger] packages[ps[a] as int].deps@[j]).kind) && c.admitted[ps[a] as int][j]
            ==> origin_listed(g.edge_seq(), origin, a, j)
}

proof fn lemma_listed_push(
    es0: Seq<(usize, usize, DepKind)>,
    origin0: Seq<int>,
    x: (usize, usize, DepKind),
    o: int,
    a: int,
    j: int,
)
    requires
        origin0.len() == es0.len(),
        origin_listed(es0, origin0, a, j),
    ensures
        origin_listed(es0.push(x), origin0.push(o), a, j),
{
    let e = choose|e: int| 0 <= e < es0.len() && es0[e].0 as int == a && #[trigger] origin0[e] == j;
    assert(es0.push(x)[e] == es0[e] && origin0.push(o)[e] == origin0[e]);
}

/// Edge `e1` leaves an earlier node than edge `e2`, or the same node from an
/// earlier dependency.
pub open spec fn origins_ordered(es: Seq<(usize, usize, DepKind)>, origin: Seq<int>, e1: int, e2: int) -> bool {
    es[e1].0 < es[e2].0 || (es[e1].0 == es[e2].0 && origin[e1] < origin[e2])
}

/// Package `a` declares a dependency of kind `k` on package `b` that its
/// platform admits.
pub open spec fn declares(packages: Seq<ResolvedPackage>, c: DepFilter, a: usize, b: usize, k: DepKind) -> bool {
    exists|j: int|
        0 <= j < packages[a as int].deps@.len() && (#[trigger] packages[a as int].deps@[j]).target() == b
            && packages[a as int].deps@[j].kind == k && c.admitted[a as int][j]
}

/// Package `a` declares a dependency on `b` of a kind the policy allows and
/// that its platform admits.
pub open spec fn allowed_dep(packages: Seq<ResolvedPackage>, c: DepFilter, a: usize, b: usize) -> bool {
    exists|j: int|
        0 <= j < packages[a as int].deps@.len() && (#[trigger] packages[a as int].deps@[j]).target() == b
            && c.extra_deps.spec_allows(packages[a as int].deps@[j].kind) && c.admitted[a as int][j]
}

/// `path` follows dependencies that the policy allows.
pub open spec fn allowed_path(packages: Seq<ResolvedPackage>, c: DepFilter, path: Seq<usize>) -> bool {
    forall|i: int| 0 <= i && i + 1 < path.len() ==> allowed_dep(packages, c, #[trigger] path[i], path[i + 1])
}

/// Package `p` is reached from `root` through dependencies the policy allows.
pub open spec fn reached(packages: Seq<ResolvedPackage>, c: DepFilter, root: usize, p: usize) -> bool {
    exists|path: Seq<usize>|
        #[trigger] allowed_path(packages, c, path) && path.len() >= 1 && path[0] == root && path.last() == p
}

/// The graph has an edge of kind `k` from the node of package `a` to the node of package `b`.
pub open spec fn package_edge(g: PackageGraph, a: usize, b: usize, k: DepKind) -> bool {
    exists|e: int|
        0 <= e < g.edge_seq().len() && g.node_packages()[(#[trigger] g.edge_seq()[e]).0 as int] == a
            && g.node_packages()[g.edge_seq()[e].1 as int] == b && g.edge_seq()[e].2 == k
}

proof fn lemma_reached_in_graph(
    packages: Seq<ResolvedPackage>,
    root: usize,
    c: DepFilter,
    g: PackageGraph,
    path: Seq<usize>,
    k: int,
)
    requires
        graph_built_from(packages, root, c, g),
        allowed_path(packages, c, path),
        0 <= k < path.len(),
        path[0] == root,
    ensures
        path[k] < packages.len(),
        g.nodes@[path[k] as int] is Some,
    decreases k,
{
    if k == 0 {
        assert(g.node_packages()[0] == root);
    } else {
        lemma_reached_in_graph(packages, root, c, g, path, k - 1);
        let p = path[k - 1];
        let x = g.nodes@[p as int].unwrap();
        assert(g.node_packages()[x as int] == p);
        assert(allowed_dep(packages, c, path[k - 1], path[k]));
        let j = choose|j: int|
            0 <= j < packages[p as int].deps@.len() && (#[trigger] packages[p as int].deps@[j]).target() == path[k]
                && c.extra_deps.spec_allows(packages[p as int].deps@[j].kind) && c.admitted[p as int][j];
        assert(packages[g.node_packages()[x as int] as int].deps@[j] == packages[p as int].deps@[j]);
        assert(packages[p as int].deps@[j].target() < packages.len());
    }
}

proof fn lemma_node_reached(packages: Seq<ResolvedPackage>, root: usize, c: DepFilter, g: PackageGraph, k: int)
    requires
        graph_built_from(packages, root, c, g),
        0 <= k < g.node_packages().len(),
    ensures
        reached(packages, c, root, g.node_packages()[k]),
    decreases k,
{
    let ps = g.node_packages();
    let es = g.edge_seq();
    if k == 0 {
        let path = seq![root];
        assert(allowed_path(packages, c, path));
    } else {
        assert(g.has_earlier_parent(k));
        let e = choose|e: int| 0 <= e < es.len() && (#[trigger] es[e]).1 == k && es[e].0 < k;
        let a = es[e].0 as int;
        lemma_node_reached(packages, root, c, g, a);
        let path = choose|path: Seq<usize>|
            #[trigger] allowed_path(packages, c, path) && path.len() >= 1 && path[0] == root && path.last() == ps[a];
        assert(edge_justified(packages, c, ps, es[e]));
        assert(allowed_dep(packages, c, ps[a], ps[k]));
        let path2 = path.push(ps[k]);
        assert forall|i: int| 0 <= i && i + 1 < path2.len() implies allowed_dep(
            packages,
            c,
            #[trigger] path2[i],
            path2[i + 1],
        ) by {
            if i + 1 < path.len() {
                assert(path2[i] == path[i] && path2[i + 1] == path[i + 1]);
                assert(allowed_dep(packages, c, path[i], path[i + 1]));
            } else {
                assert(path2[i] == ps[a] && path2[i + 1] == ps[k]);
            }
        }
        assert(allowed_path(packages, c, path2));
    }
}

/// The built graph is the allowed part of the resolved relation: a package
/// has a node exactly when dependencies that the policy allows and their
/// platforms admit reach it from the root, and the graph has an edge between
/// two packages exactly when the first has a node and declares such a
/// dependency of that kind on the second. With the `NoMore` policy this is the
/// subgraph of normal edges, with `All` every edge the resolver reports.
pub proof fn law_graph_is_allowed_part(packages: Seq<ResolvedPackage>, root: usize, c: DepFilter, g: PackageGraph)
    requires
        graph_built_from(packages, root, c, g),
    ensures
        forall|p: usize| p < packages.len() ==> (#[trigger] g.nodes@[p as int] is Some <==> reached(packages, c, root, p)),
        forall|a: usize, b: usize, k: DepKind|
            #[trigger] package_edge(g, a, b, k) <==> (a < packages.len() && g.nodes@[a as int] is Some && declares(
                packages,
                c,
                a,
                b,
                k,
            ) && c.extra_deps.spec_allows(k)),
{
    let ps = g.node_packages();
    let es = g.edge_seq();
    assert forall|p: usize| p < packages.len() implies (#[trigger] g.nodes@[p as int] is Some <==> reached(
        packages,
        c,
        root,
        p,
    )) by {
        if g.nodes@[p as int] is Some {
            let x = g.nodes@[p as int].unwrap();
            lemma_node_reached(packages, root, c, g, x as int);
        }
        if reached(packages, c, root, p) {
            let path = choose|path: Seq<usize>|
                #[trigger] allowed_path(packages, c, path) && path.len() >= 1 && path[0] == root && path.last() == p;
            lemma_reached_in_graph(packages, root, c, g, path, path.len() - 1);
        }
    }
    assert forall|a: usize, b: usize, k: DepKind| #[trigger] package_edge(g, a, b, k) <==> (a < packages.len()
        && g.nodes@[a as int] is Some && declares(packages, c, a, b, k) && c.extra_deps.spec_allows(k)) by {
        if package_edge(g, a, b, k) {
            let e = choose|e: int|
                0 <= e < es.len() && ps[(#[trigger] es[e]).0 as int] == a && ps[es[e].1 as int] == b && es[e].2 == k;
            assert(edge_justified(packages, c, ps, es[e]));
            let j = choose|j: int|
                0 <= j < packages[ps[es[e].0 as int] as int].deps@.len() && dep_may_yield(
                    #[trigger] packages[ps[es[e].0 as int] as int].deps@[j],
                    c,
                    ps[es[e].1 as int],
                    es[e].2,
                ) && c.admitted[ps[es[e].0 as int] as int][j];
            assert(packages[a as int].deps@[j].target() == b);
        }
        if a < packages.len() && g.nodes@[a as int] is Some && declares(packages, c, a, b, k) && c.extra_deps.spec_allows(
            k,
        ) {
            let x = g.nodes@[a as int].unwrap();
            let j = choose|j: int|
                0 <= j < packages[a as int].deps@.len() && (#[trigger] packages[a as int].deps@[j]).target() == b
                    && packages[a as int].deps@[j].kind == k && c.admitted[a as int][j];
            assert(ps[x as int] == a);
            assert(packages[ps[x as int] as int].deps@[j] == packages[a as int].deps@[j]);
            assert(b < packages.len());
            let y = g.nodes@[b as int].unwrap();
            let e = choose|e: int| 0 <= e < es.len() && #[trigger] es[e] == (x, y, k);
            assert(ps[es[e].0 as int] == a && ps[es[e].1 as int] == b);
        }
    }
}

/// With the same platform decisions, the graph built under `NoMore` is the
/// part of the graph built under `All` made of its normal edges: its packages
/// are packages of the larger graph, and it has an edge exactly where the
/// larger graph has a normal edge out of one of its packages.
pub proof fn law_no_more_is_normal_part_of_all(
    packages: Seq<ResolvedPackage>,
    root: usize,
    admitted: Seq<Seq<bool>>,
    g_no_more: PackageGraph,
    g_all: PackageGraph,
)
    requires
        graph_built_from(packages, root, (DepFilter { extra_deps: ExtraDeps::NoMore, admitted }), g_no_more),
        graph_built_from(packages, root, (DepFilter { extra_deps: ExtraDeps::All, admitted }), g_all),
    ensures
        forall|p: usize| p < packages.len() && #[trigger] g_no_more.nodes@[p as int] is Some ==> g_all.nodes@[p as int] is Some,
        forall|a: usize, b: usize, k: DepKind|
            #[trigger] package_edge(g_no_more, a, b, k) <==> (k == DepKind::Normal && a < packages.len()
                && g_no_more.nodes@[a as int] is Some && package_edge(g_all, a, b, k)),
{
    let nm = DepFilter { extra_deps: ExtraDeps::NoMore, admitted };
    let al = DepFilter { extra_deps: ExtraDeps::All, admitted };
    law_graph_is_allowed_part(packages, root, nm, g_no_more);
    law_graph_is_allowed_part(packages, root, al, g_all);
    assert forall|p: usize| p < packages.len() && #[trigger] g_no_more.nodes@[p as int] is Some implies g_all.nodes@[p as int] is Some by {
        assert(reached(packages, nm, root, p));
        let path = choose|path: Seq<usize>|
            #[trigger] allowed_path(packages, nm, path) && path.len() >= 1 && path[0] == root && path.last() == p;
        assert forall|i: int| 0 <= i && i + 1 < path.len() implies allowed_dep(packages, al, #[trigger] path[i], path[i + 1]) by {
            assert(allowed_dep(packages, nm, path[i], path[i + 1]));
        }
        assert(allowed_path(packages, al, path));
        assert(reached(packages, al, root, p));
    }
    assert forall|a: usize, b: usize, k: DepKind| #[trigger] package_edge(g_no_more, a, b, k) <==> (k == DepKind::Normal
        && a < packages.len() && g_no_more.nodes@[a as int] is Some && package_edge(g_all, a, b, k)) by {
        if a < packages.len() && g_no_more.nodes@[a as int] is Some {
            assert(g_all.nodes@[a as int] is Some);
        }
    }
}

/// Under the `NoMore` policy the graph holds normal edges only.
pub proof fn law_no_more_keeps_normal_edges_only(
    packages: Seq<ResolvedPackage>,
    root: usize,
    c: DepFilter,
    g: PackageGraph,
)
    requires
        graph_built_from(packages, root, c, g),
        c.extra_deps == ExtraDeps::NoMore,
    ensures
        forall|e: int| 0 <= e < g.edge_seq().len() ==> (#[trigger] g.edge_seq()[e]).2 == DepKind::Normal,
{
    assert forall|e: int| 0 <= e < g.edge_seq().len() implies (#[trigger] g.edge_seq()[e]).2 == DepKind::Normal by {
        assert(edge_justified(packages, c, g.node_packages(), g.edge_seq()[e]));
    }
}

/// Whether the platform filter lets a dependency through: with a predicate, a
/// known target and known cfgs, the predicate must hold for them; otherwise
/// the dependency is included.
fn platform_admits(d: &ResolvedDep, c: &GraphConfig) -> (r: bool)
    ensures
        platform_certainly_admits(*d, *c) ==> r,
{
    match (&d.platform, &c.target, &c.cfgs) {
        (Some(p), Some(t), Some(cfgs)) => p.matches(t.as_str(), cfgs.as_slice()),
        _ => true,
    }
}

/// Checks that the set fits the graph's indices.
fn check_fits(packages: &Vec<ResolvedPackage>) -> (r: bool)
    ensures
        r == fits_indices(packages@),
{
    if packages.len() >= 0xffff_ffff {
        return false;
    }
    let ghost s = packages@.map_values(|p: ResolvedPackage| p.deps@.len());
    let mut acc: usize = 0;
    let mut q: usize = 0;
    while q < packages.len()
        invariant
            q <= packages.len(),
            s == packages@.map_values(|p: ResolvedPackage| p.deps@.len()),
            acc == seq_sum(s.take(q as int)),
            acc < u32::MAX,
        decreases packages.len() - q,
    {
        proof {
            lemma_sum_take_step(s, q as int);
        }
        let len = packages[q].deps.len();
        if len >= 0xffff_ffff - acc {
            proof {
                lemma_sum_take_le(s, q as int + 1);
            }
            return false;
        }
        acc = acc + len;
        q = q + 1;
    }
    assert(s.take(q as int) =~= s);
    true
}

/// Checks that the root and every dependency target name a package of the set.
fn check_consistent(packages: &Vec<ResolvedPackage>, root: usize) -> (r: bool)
    ensures
        r == resolution_consistent(packages@, root),
{
    let n = packages.len();
    if root >= n {
        return false;
    }
    let mut q: usize = 0;
    while q < n
        invariant
            n == packages@.len(),
            q <= n,
            forall|q2: int, j: int|
                0 <= q2 < q && 0 <= j < packages@[q2].deps@.len()
                    ==> (#[trigger] packages@[q2].deps@[j]).target() < n,
        decreases n - q,
    {
        let deps = &packages[q].deps;
        let mut j: usize = 0;
        while j < deps.len()
            invariant
                n == packages@.len(),
                q < n,
                deps == packages@[q as int].deps,
                j <= deps@.len(),
                forall|q2: int, j2: int|
                    0 <= q2 < q && 0 <= j2 < packages@[q2].deps@.len()
                        ==> (#[trigger] packages@[q2].deps@[j2]).target() < n,
                forall|j2: int| 0 <= j2 < j ==> (#[trigger] deps@[j2]).target() < n,
            decreases deps@.len() - j,
        {
            let t = match deps[j].replacement {
                Some(r) => r,
                None => deps[j].package,
            };
            if t >= n {
                return false;
            }
            j = j + 1;
        }
        q = q + 1;
    }
    true
}


/// Builds the graph of the packages reachable from `root`, breadth first,
/// with the platform decision for each dependency given: `admitted[q][j]`
/// tells whether dependency `j` of package `q` passes its platform filter.
///
/// A dependency becomes an edge when the extra-deps policy allows its kind and
/// it is admitted; each such dependency of a reached package yields one edge.
/// Each package gets one node, added when first reached, so the cost is
/// bounded by the nodes and edges whatever the cycles.
#[verifier::rlimit(60)]
pub fn build_graph_admitting(
    packages: &Vec<ResolvedPackage>,
    root: usize,
    extra_deps: ExtraDeps,
    admitted: &Vec<Vec<bool>>,
) -> (r: Result<PackageGraph, GraphError>)
    requires
        admission_shaped(packages@, table_view(admitted@)),
    ensures
        !fits_indices(packages@) ==> r == Err::<PackageGraph, GraphError>(GraphError::TooLarge),
        fits_indices(packages@) && !resolution_consistent(packages@, root) ==> r == Err::<
            PackageGraph,
            GraphError,
        >(GraphError::ResolutionInconsistency),
        fits_indices(packages@) && resolution_consistent(packages@, root) ==> r is Ok,
        r matches Ok(g) ==> graph_built_from(
            packages@,
            root,
            (DepFilter { extra_deps, admitted: table_view(admitted@) }),
            g,
        ),
{
    if !check_fits(packages) {
        return Err(GraphError::TooLarge);
    }
    if !check_consistent(packages, root) {
        return Err(GraphError::ResolutionInconsistency);
    }
    let n = packages.len();
    let ghost f = DepFilter { extra_deps, admitted: table_view(admitted@) };
    let ghost dl = packages@.map_values(|p: ResolvedPackage| p.deps@.len());
    let mut lookup: Vec<Option<usize>> = Vec::new();
    let mut q: usize = 0;
    while q < n
        invariant
            q <= n,
            lookup@.len() == q,
            forall|x: int| 0 <= x < q ==> lookup@[x] is None,
        decreases n - q,
    {
        lookup.push(None);
        q = q + 1;
    }
    proof {
        lemma_count_some_none(lookup@);
    }
    let mut g = PackageGraph { graph: petgraph_new(), nodes: lookup };
    let r0 = petgraph_add_node(&mut g.graph, root);
    proof {
        lemma_count_some_fill(g.nodes@, root as int, 0);
    }
    g.nodes.set(root, Some(r0));
    let ghost mut done: Seq<nat> = Seq::new(n as nat, |x: int| 0nat);
    let ghost mut origin: Seq<int> = Seq::empty();
    proof {
        lemma_sum_zeros(done);
    }
    let mut i: usize = 0;
    while i < petgraph_node_count(&g.graph)
        invariant
            n == packages@.len(),
            f == (DepFilter { extra_deps, admitted: table_view(admitted@) }),
            admission_shaped(packages@, f.admitted),
            fits_indices(packages@),
            resolution_consistent(packages@, root),
            dl == packages@.map_values(|p: ResolvedPackage| p.deps@.len()),
            g.wf(),
            g.nodes@.len() == n,
            g.node_packages()[0] == root,
            i <= g.node_packages().len(),
            g.node_packages().len() == count_some(g.nodes@),
            edges_justified(packages@, f, g),
            edge_origins(packages@, f, g, origin),
            origins_complete_upto(packages@, f, g, origin, i as int),
            forall|e: int| 0 <= e < g.edge_seq().len() ==> (#[trigger] g.edge_seq()[e]).0 < i,
            edges_complete_upto(packages@, f, g, i as int),
            nodes_connected(g),
            done.len() == n,
            forall|x: int|
                0 <= x < n ==> #[trigger] done[x] == if g.nodes@[x] is Some && g.nodes@[x].unwrap() < i {
                    dl[x]
                } else {
                    0
                },
            g.edge_seq().len() <= seq_sum(done),
        decreases n - i,
    {
        let p = petgraph_node_weight(&g.graph, i);
        let deps = &packages[p].deps;
        let ghost done_before = done;
        proof {
            lemma_sum_update(done, p as int, dl[p as int]);
            lemma_sum_le(done.update(p as int, dl[p as int]), dl);
            lemma_count_some_le_len(g.nodes@);
        }
        let mut j: usize = 0;
        while j < deps.len()
            invariant
                n == packages@.len(),
                f == (DepFilter { extra_deps, admitted: table_view(admitted@) }),
                admission_shaped(packages@, f.admitted),
                fits_indices(packages@),
                resolution_consistent(packages@, root),
                dl == packages@.map_values(|p: ResolvedPackage| p.deps@.len()),
                g.wf(),
                g.nodes@.len() == n,
                g.node_packages()[0] == root,
                i < g.node_packages().len(),
                g.node_packages()[i as int] == p,
                p < n,
                deps == packages@[p as int].deps,
                j <= deps@.len(),
                g.node_packages().len() == count_some(g.nodes@),
                edges_justified(packages@, f, g),
                edge_origins(packages@, f, g, origin),
                origins_complete_upto(packages@, f, g, origin, i as int),
                forall|j2: int|
                    0 <= j2 < j && extra_deps.spec_allows((#[trigger] deps@[j2]).kind) && f.admitted[p as int][j2]
                        ==> origin_listed(g.edge_seq(), origin, i as int, j2),
                forall|e: int|
                    0 <= e < g.edge_seq().len() ==> (#[trigger] g.edge_seq()[e]).0 < i || (g.edge_seq()[e].0 == i
                        && origin[e] < j),
                edges_complete_upto(packages@, f, g, i as int),
                forall|j2: int|
                    0 <= j2 < j && extra_deps.spec_allows((#[trigger] deps@[j2]).kind)
                        && f.admitted[p as int][j2] ==> {
                        &&& g.nodes@[deps@[j2].target() as int] is Some
                        &&& g.has_edge(i as int, g.nodes@[deps@[j2].target() as int].unwrap() as int, deps@[j2].kind)
                    },
                nodes_connected(g),
                done == done_before,
                done.len() == n,
                forall|x: int|
                    0 <= x < n ==> #[trigger] done[x] == if g.nodes@[x] is Some && g.nodes@[x].unwrap() < i {
                        dl[x]
                    } else {
                        0
                    },
                g.edge_seq().len() <= seq_sum(done) + j,
                seq_sum(done) + dl[p as int] <= seq_sum(dl),
                seq_sum(dl) < u32::MAX,
            decreases deps@.len() - j,
        {
            let d = &deps[j];
            assert(f.admitted[p as int] == admitted@[p as int]@);
            assert(f.admitted[p as int].len() == packages@[p as int].deps@.len());
            if extra_deps.allows(d.kind) && admitted[p][j] {
                let t = match d.replacement {
                    Some(r) => r,
                    None => d.package,
                };
                assert(packages@[p as int].deps@[j as int].target() < n);
                let ghost es0 = g.edge_seq();
                let ghost ps0 = g.node_packages();
                let ghost lk0 = g.nodes@;
                proof {
                    assert forall|k: int| 0 < k < ps0.len() implies #[trigger] entered_from_earlier(es0, k) by {
                        assert(g.has_earlier_parent(k));
                    }
                }
                let ti = match g.nodes[t] {
                    Some(x) => x,
                    None => {
                        proof {
                            lemma_count_some_fill(g.nodes@, t as int, ps0.len() as usize);
                            lemma_count_some_le_len(g.nodes@.update(t as int, Some(ps0.len() as usize)));
                        }
                        let x = petgraph_add_node(&mut g.graph, t);
                        g.nodes.set(t, Some(x));
                        x
                    },
                };
                petgraph_add_edge(&mut g.graph, i, ti, d.kind);
                proof {
                    let es = g.edge_seq();
                    let ps = g.node_packages();
                    assert forall|e: int| 0 <= e < es0.len() implies #[trigger] es0[e] == es[e] by {}
                    assert forall|k: int| 0 <= k < ps0.len() implies #[trigger] ps0[k] == ps[k] by {}
                    assert(es[es0.len() as int] == (i, ti, d.kind));
                    assert(g.wf());
                    assert(ps[ti as int] == t);
                    lemma_justified_push(packages@, f, ps0, es0, ps, (i, ti, d.kind), j as int);
                    let origin0 = origin;
                    origin = origin0.push(j as int);
                    assert forall|e: int| 0 <= e < es.len() implies 0 <= #[trigger] origin[e]
                        < packages@[ps[es[e].0 as int] as int].deps@.len() && dep_may_yield(
                        packages@[ps[es[e].0 as int] as int].deps@[origin[e]],
                        f,
                        ps[es[e].1 as int],
                        es[e].2,
                    ) by {
                        if e < es0.len() {
                            assert(es[e] == es0[e] && origin[e] == origin0[e]);
                            assert(ps[es[e].0 as int] == ps0[es0[e].0 as int]);
                            assert(ps[es[e].1 as int] == ps0[es0[e].1 as int]);
                        } else {
                            assert(es[e] == (i, ti, d.kind));
                        }
                    }
                    assert forall|e1: int, e2: int| 0 <= e1 < e2 < es.len() implies #[trigger] origins_ordered(
                        es,
                        origin,
                        e1,
                        e2,
                    ) by {
                        assert(es[e1] == es0[e1] && origin[e1] == origin0[e1]);
                        if e2 < es0.len() {
                            assert(es[e2] == es0[e2] && origin[e2] == origin0[e2]);
                            assert(origins_ordered(es0, origin0, e1, e2));
                        } else {
                            assert(es[e2] == (i, ti, d.kind) && origin[e2] == j);
                        }
                    }
                    assert forall|e: int| 0 <= e < es.len() implies (#[trigger] es[e]).0 < i || (es[e].0 == i
                        && origin[e] < j + 1) by {
                        if e < es0.len() {
                            assert(es[e] == es0[e] && origin[e] == origin0[e]);
                        }
                    }
                    assert(edge_origins(packages@, f, g, origin));
                    assert forall|j2: int|
                        0 <= j2 < j + 1 && extra_deps.spec_allows((#[trigger] deps@[j2]).kind) && f.admitted[p as int][j2]
                            implies origin_listed(es, origin, i as int, j2) by {
                        if j2 < j {
                            lemma_listed_push(es0, origin0, (i, ti, d.kind), j as int, i as int, j2);
                        } else {
                            assert(es[es0.len() as int].0 == i && origin[es0.len() as int] == j);
                        }
                    }
                    assert forall|a: int, j2: int|
                        0 <= a < i && 0 <= a < ps.len() && 0 <= j2 < packages@[ps[a] as int].deps@.len()
                            && extra_deps.spec_allows((#[trigger] packages@[ps[a] as int].deps@[j2]).kind)
                            && f.admitted[ps[a] as int][j2] implies origin_listed(es, origin, a, j2) by {
                        assert(ps0[a] == ps[a]);
                        lemma_listed_push(es0, origin0, (i, ti, d.kind), j as int, a, j2);
                    }
                    assert(nodes_connected(g)) by {
                        assert forall|k: int| 0 < k < ps.len() implies #[trigger] g.has_earlier_parent(k) by {
                            if k < ps0.len() {
                                assert(entered_from_earlier(es0, k));
                                let e = choose|e: int| 0 <= e < es0.len() && (#[trigger] es0[e]).1 == k && es0[e].0 < k;
                                assert(es[e] == es0[e]);
                            } else {
                                assert(es[es0.len() as int].1 == k);
                            }
                        }
                    }
                    assert(edges_complete_upto(packages@, f, g, i as int)) by {
                        assert forall|a: int, j2: int|
                            0 <= a < i && 0 <= a < ps.len() && 0 <= j2 < packages@[ps[a] as int].deps@.len()
                                && extra_deps.spec_allows((#[trigger] packages@[ps[a] as int].deps@[j2]).kind)
                                && f.admitted[ps[a] as int][j2] implies {
                                let d2 = packages@[ps[a] as int].deps@[j2];
                                &&& g.nodes@[d2.target() as int] is Some
                                &&& g.has_edge(a, g.nodes@[d2.target() as int].unwrap() as int, d2.kind)
                            } by {
                            assert(ps0[a] == ps[a]);
                            let d2 = packages@[ps[a] as int].deps@[j2];
                            let w = choose|e: int| 0 <= e < es0.len() && #[trigger] es0[e] == (
                                a as usize,
                                lk0[d2.target() as int].unwrap(),
                                d2.kind,
                            );
                            assert(es[w] == es0[w]);
                        }
                    }
                    assert forall|j2: int|
                        0 <= j2 < j + 1 && extra_deps.spec_allows((#[trigger] deps@[j2]).kind)
                            && f.admitted[p as int][j2] implies {
                            &&& g.nodes@[deps@[j2].target() as int] is Some
                            &&& g.has_edge(i as int, g.nodes@[deps@[j2].target() as int].unwrap() as int, deps@[j2].kind)
                        } by {
                        if j2 < j {
                            let w = choose|e: int| 0 <= e < es0.len() && #[trigger] es0[e] == (
                                i,
                                lk0[deps@[j2].target() as int].unwrap(),
                                deps@[j2].kind,
                            );
                            assert(es[w] == es0[w]);
                        } else {
                            assert(es[es0.len() as int] == (i, ti, d.kind));
                        }
                    }
                    assert forall|x: int|
                        0 <= x < n implies #[trigger] done[x] == if g.nodes@[x] is Some && g.nodes@[x].unwrap() < i {
                            dl[x]
                        } else {
                            0
                        } by {
                        assert(lk0[x] == g.nodes@[x] || (x == t && lk0[x] is None));
                    }
                }
            }
            j = j + 1;
        }
        proof {
            done = done.update(p as int, dl[p as int]);
        }
        i = i + 1;
    }
    proof {
        assert(g.node_packages().len() == i);
    }
    Ok(g)
}

/// Every edge joins two of the first `n` nodes.
pub open spec fn edges_within(es: Seq<(usize, usize, DepKind)>, n: nat) -> bool {
    forall|e: int| 0 <= e < es.len() ==> (#[trigger] es[e]).0 < n && es[e].1 < n
}

/// The end of edge `x` it is listed under: its source, or its target when
/// walking against the edges.
pub open spec fn near_end(x: (usize, usize, DepKind), incoming: bool) -> usize {
    if incoming {
        x.1
    } else {
        x.0
    }
}

/// The other end of edge `x`.
pub open spec fn far_end(x: (usize, usize, DepKind), incoming: bool) -> usize {
    if incoming {
        x.0
    } else {
        x.1
    }
}

/// Edge `e` is listed under its near end.
pub open spec fn listed(adj: Seq<Vec<usize>>, es: Seq<(usize, usize, DepKind)>, e: int, incoming: bool) -> bool {
    exists|t: int|
        0 <= t < adj[near_end(es[e], incoming) as int]@.len() && #[trigger] adj[near_end(es[e], incoming) as int]@[t]
            == e
}

/// For each node, the indices of the edges that leave it, or that enter it
/// when `incoming`.
pub(crate) fn edges_by_endpoint(es: &Vec<(usize, usize, DepKind)>, n: usize, incoming: bool) -> (adj: Vec<Vec<usize>>)
    requires
        edges_within(es@, n as nat),
    ensures
        adj@.len() == n,
        forall|a: int, t: int|
            0 <= a < n && 0 <= t < adj@[a]@.len() ==> #[trigger] adj@[a]@[t] < es@.len() && near_end(es@[adj@[a]@[t] as int], incoming)
                == a,
        forall|e: int| 0 <= e < es@.len() ==> #[trigger] listed(adj@, es@, e, incoming),
{
    let mut adj: Vec<Vec<usize>> = Vec::new();
    let mut a: usize = 0;
    while a < n
        invariant
            a <= n,
            adj@.len() == a,
            forall|x: int| 0 <= x < a ==> (#[trigger] adj@[x])@.len() == 0,
        decreases n - a,
    {
        adj.push(Vec::new());
        a = a + 1;
    }
    let mut e: usize = 0;
    while e < es.len()
        invariant
            edges_within(es@, n as nat),
            e <= es@.len(),
            adj@.len() == n,
            forall|a2: int, t: int|
                0 <= a2 < n && 0 <= t < adj@[a2]@.len() ==> #[trigger] adj@[a2]@[t] < e && near_end(es@[adj@[a2]@[t] as int], incoming)
                    == a2,
            forall|e2: int| 0 <= e2 < e ==> #[trigger] listed(adj@, es@, e2, incoming),
        decreases es@.len() - e,
    {
        let src = if incoming { es[e].1 } else { es[e].0 };
        let ghost adj0 = adj@;
        let mut row: Vec<usize> = Vec::new();
        adj.set_and_swap(src, &mut row);
        let ghost row0 = row@;
        row.push(e);
        adj.set_and_swap(src, &mut row);
        proof {
            assert(adj@[src as int]@ == row0.push(e));
            assert forall|e2: int| 0 <= e2 < e + 1 implies #[trigger] listed(adj@, es@, e2, incoming) by {
                if e2 < e {
                    assert(listed(adj0, es@, e2, incoming));
                    let a2 = near_end(es@[e2], incoming) as int;
                    let t = choose|t: int| 0 <= t < adj0[a2]@.len() && #[trigger] adj0[a2]@[t] == e2;
                    if a2 == src {
                        assert(adj@[a2]@[t] == e2);
                    } else {
                        assert(adj@[a2] == adj0[a2]);
                    }
                } else {
                    assert(adj@[src as int]@[row0.len() as int] == e);
                }
            }
            assert forall|a2: int, t: int|
                0 <= a2 < n && 0 <= t < adj@[a2]@.len() implies #[trigger] adj@[a2]@[t] < e + 1
                    && near_end(es@[adj@[a2]@[t] as int], incoming) == a2 by {
                if a2 == src {
                    if t < row0.len() {
                        assert(adj@[a2]@[t] == adj0[a2]@[t]);
                    }
                } else {
                    assert(adj@[a2] == adj0[a2]);
                }
            }
        }
        e = e + 1;
    }
    adj
}


/// Every dependency that the include-when-unknown policy lets in without
/// asking its predicate is admitted.
pub open spec fn admits_unknown(packages: Seq<ResolvedPackage>, c: GraphConfig, admitted: Seq<Seq<bool>>) -> bool {
    forall|q: int, j: int|
        0 <= q < packages.len() && 0 <= j < packages[q].deps@.len() && platform_certainly_admits(
            #[trigger] packages[q].deps@[j],
            c,
        ) ==> admitted[q][j]
}

/// Asks each dependency's platform predicate, under the include-when-unknown
/// policy.
fn admission_table(packages: &Vec<ResolvedPackage>, c: &GraphConfig) -> (r: Vec<Vec<bool>>)
    ensures
        admission_shaped(packages@, table_view(r@)),
        admits_unknown(packages@, *c, table_view(r@)),
{
    let mut table: Vec<Vec<bool>> = Vec::new();
    let mut q: usize = 0;
    while q < packages.len()
        invariant
            q <= packages@.len(),
            table@.len() == q,
            forall|q2: int| 0 <= q2 < q ==> (#[trigger] table@[q2])@.len() == packages@[q2].deps@.len(),
            forall|q2: int, j: int|
                0 <= q2 < q && 0 <= j < packages@[q2].deps@.len() && platform_certainly_admits(
                    #[trigger] packages@[q2].deps@[j],
                    *c,
                ) ==> table@[q2]@[j],
        decreases packages@.len() - q,
    {
        let deps = &packages[q].deps;
        let mut row: Vec<bool> = Vec::new();
        let mut j: usize = 0;
        while j < deps.len()
            invariant
                q < packages@.len(),
                deps == packages@[q as int].deps,
                j <= deps@.len(),
                row@.len() == j,
                forall|j2: int| 0 <= j2 < j && platform_certainly_admits(#[trigger] deps@[j2], *c) ==> row@[j2],
            decreases deps@.len() - j,
        {
            row.push(platform_admits(&deps[j], c));
            j = j + 1;
        }
        table.push(row);
        q = q + 1;
    }
    table
}

/// Builds the graph of the packages reachable from `root`, breadth first.
///
/// A dependency becomes an edge when the extra-deps policy allows its kind and
/// its platform filter lets it in: a predicate decides only when both the
/// target and the active cfgs are known, otherwise the dependency is included.
pub fn build_graph(packages: &Vec<ResolvedPackage>, root: usize, config: &GraphConfig) -> (r: Result<
    PackageGraph,
    GraphError,
>)
    ensures
        !fits_indices(packages@) ==> r == Err::<PackageGraph, GraphError>(GraphError::TooLarge),
        fits_indices(packages@) && !resolution_consistent(packages@, root) ==> r == Err::<
            PackageGraph,
            GraphError,
        >(GraphError::ResolutionInconsistency),
        fits_indices(packages@) && resolution_consistent(packages@, root) ==> r is Ok,
        r matches Ok(g) ==> exists|admitted: Seq<Seq<bool>>|
            admission_shaped(packages@, admitted) && admits_unknown(packages@, *config, admitted) && graph_built_from(
                packages@,
                root,
                (DepFilter { extra_deps: config.extra_deps, admitted }),
                g,
            ),
{
    let admitted = admission_table(packages, config);
    let r = build_graph_admitting(packages, root, config.extra_deps, &admitted);
    proof {
        if r is Ok {
            assert(admission_shaped(packages@, table_view(admitted@)));
        }
    }
    r
}
} // verus!
