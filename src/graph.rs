//! The dependency graph: nodes addressed by path or symbol, typed edges kept
//! in insertion order, and the structural queries answered over them.
use crate::dependency::{relation_name_spec, vec_contains, edge_views, Dependency, DependencyMetadata, DependencyType, EdgeView};
use vstd::prelude::*;

verus! {

broadcast use vstd::seq_lib::group_seq_properties;

/// What a graph node stands for.
#[derive(Debug, Clone, Copy, PartialEq, Eq, Structural)]
pub enum NodeType {
    File,
    Function,
    Module,
    Type,
}

/// A node reached from the start of a traversal: `depth` hops away, over a
/// last edge of kind `relationship_type`, along `intermediate_nodes` (the
/// walk from the start to `path`, both included).
#[derive(Debug, Clone)]
pub struct IndirectRelationship {
    pub path: String,
    pub relationship_type: DependencyType,
    pub depth: usize,
    pub intermediate_nodes: Vec<String>,
}

/// The node keys of a traversal frontier.
pub open spec fn frontier_set(f: Seq<(String, Vec<String>)>) -> Set<Seq<char>> {
    Set::new(|x: Seq<char>| exists|j: int| 0 <= j < f.len() && f[j].0@ == x)
}

/// A frontier entry at `level`: its node and the walk of `level` hops to it.
pub open spec fn frontier_ok(edges: Seq<EdgeView>, start: Seq<char>, level: int, e: (String, Vec<String>)) -> bool {
    &&& walk_from(edges, start, e.1.deep_view())
    &&& e.1.deep_view().len() == level + 1
    &&& e.1.deep_view().last() == e.0@
}

/// The reached node keys of a traversal's results.
pub open spec fn reached_paths(rs: Seq<IndirectRelationship>) -> Seq<Seq<char>> {
    rs.map_values(|x: IndirectRelationship| x.path@)
}

/// What a traversal from `start` reports of a reached node.
pub open spec fn reached_ok(edges: Seq<EdgeView>, start: Seq<char>, r: IndirectRelationship) -> bool {
    let p = r.intermediate_nodes.deep_view();
    &&& r.depth >= 1
    &&& within(edges, start, r.depth as nat).contains(r.path@)
    &&& !within(edges, start, (r.depth - 1) as nat).contains(r.path@)
    &&& walk_from(edges, start, p)
    &&& p.len() == r.depth + 1
    &&& p.last() == r.path@
    &&& has_kind_edge(edges, p[r.depth - 1], r.path@, r.relationship_type)
}

/// Structural metrics of one node. The coupling factor is
/// `(incoming_dependencies + outgoing_dependencies) / node_count`, and 0
/// when the graph has no nodes.
#[derive(Debug, Clone, Copy)]
pub struct DependencyMetrics {
    pub incoming_dependencies: usize,
    pub outgoing_dependencies: usize,
    pub cyclomatic_complexity: usize,
    pub depth_of_inheritance: Result<usize, GraphError>,
    pub node_count: usize,
}

/// What the graph reports of one node.
#[derive(Debug, Clone)]
pub struct NodeSummary {
    pub file_path: String,
    pub dependencies: Vec<String>,
    pub callers: Vec<String>,
    pub direct: Vec<(String, Vec<String>)>,
    pub indirect: Vec<IndirectRelationship>,
    pub metrics: DependencyMetrics,
    pub node_metadata: Option<Vec<(String, String)>>,
}

/// The hop bound of `get_indirect_relationships`.
pub const DEFAULT_INDIRECT_DEPTH: usize = 3;

/// Errors of graph queries; each is scoped to the query that reports it.
#[derive(Debug, Clone, Copy, PartialEq, Eq, Structural)]
pub enum GraphError {
    CyclicInheritance,
}

/// A graph node. `metadata` maps keys to JSON text.
#[derive(Debug, Clone)]
pub struct Node {
    pub path: String,
    pub metadata: Vec<(String, String)>,
    pub node_type: NodeType,
}

/// A typed edge between two nodes.
#[derive(Debug, Clone)]
pub struct Edge {
    pub source: String,
    pub target: String,
    pub edge_type: DependencyType,
    pub metadata: DependencyMetadata,
}

impl Edge {
    pub open spec fn edge_view(&self) -> EdgeView {
        EdgeView { source: self.source@, target: self.target@, kind: self.edge_type }
    }
}

/// The abstract state of a graph: its node keys and its edges in insertion order.
pub ghost struct GraphView {
    pub nodes: Seq<Seq<char>>,
    pub edges: Seq<EdgeView>,
    pub node_metadata: Seq<Seq<(Seq<char>, Seq<char>)>>,
}

/// The view of a metadata list: key and value text of each pair.
pub open spec fn pairs_view(m: Seq<(String, String)>) -> Seq<(Seq<char>, Seq<char>)> {
    m.map_values(|p: (String, String)| (p.0@, p.1@))
}

pub struct DependencyGraph {
    nodes: Vec<Node>,
    edges: Vec<Edge>,
}

/// Targets of the edges that leave `f`, in edge order.
pub open spec fn targets_from(edges: Seq<EdgeView>, f: Seq<char>) -> Seq<Seq<char>>
    decreases edges.len(),
{
    if edges.len() == 0 {
        Seq::empty()
    } else {
        let prev = targets_from(edges.drop_last(), f);
        if edges.last().source == f {
            prev.push(edges.last().target)
        } else {
            prev
        }
    }
}

/// Targets of the edges of kind `k` that leave `f`, in edge order.
pub open spec fn targets_of_kind(edges: Seq<EdgeView>, f: Seq<char>, k: DependencyType) -> Seq<Seq<char>>
    decreases edges.len(),
{
    if edges.len() == 0 {
        Seq::empty()
    } else {
        let prev = targets_of_kind(edges.drop_last(), f, k);
        if edges.last().source == f && edges.last().kind == k {
            prev.push(edges.last().target)
        } else {
            prev
        }
    }
}

/// Sources of the call edges that enter `t`, in edge order.
pub open spec fn callers_spec(edges: Seq<EdgeView>, t: Seq<char>) -> Seq<Seq<char>>
    decreases edges.len(),
{
    if edges.len() == 0 {
        Seq::empty()
    } else {
        let prev = callers_spec(edges.drop_last(), t);
        if edges.last().target == t && edges.last().kind == DependencyType::FunctionCall {
            prev.push(edges.last().source)
        } else {
            prev
        }
    }
}

/// The kinds in the order in which relation buckets are reported.
pub open spec fn kind_order() -> Seq<DependencyType> {
    seq![
        DependencyType::Import,
        DependencyType::FunctionCall,
        DependencyType::Inheritance,
        DependencyType::Usage,
        DependencyType::FunctionDefinition,
        DependencyType::TypeUsage,
    ]
}

/// One `(relation name, targets)` bucket for each kind of `kinds` under which
/// `f` has at least one outgoing edge.
pub open spec fn buckets(edges: Seq<EdgeView>, f: Seq<char>, kinds: Seq<DependencyType>) -> Seq<(Seq<char>, Seq<Seq<char>>)>
    decreases kinds.len(),
{
    if kinds.len() == 0 {
        Seq::empty()
    } else {
        let prev = buckets(edges, f, kinds.drop_last());
        let ts = targets_of_kind(edges, f, kinds.last());
        if ts.len() > 0 {
            prev.push((crate::dependency::relation_name_spec(kinds.last()), ts))
        } else {
            prev
        }
    }
}

/// The last component of path `p` (empty when there is none).
pub uninterp spec fn file_name_of(p: Seq<char>) -> Seq<char>;

/// `pat` occurs in `s` as a contiguous run.
pub open spec fn is_substring(pat: Seq<char>, s: Seq<char>) -> bool {
    exists|i: int| 0 <= i && i + pat.len() <= s.len() && #[trigger] s.subrange(i, i + pat.len()) == pat
}

/// Relies on `std::path::Path::file_name`: the final component of the path,
/// read as UTF-8; the empty string when there is none.
#[verifier::external_body]
fn file_name(p: &String) -> (r: String)
    ensures
        r@ == file_name_of(p@),
{
    std::path::Path::new(p.as_str()).file_name().and_then(|n| n.to_str()).unwrap_or("").to_owned()
}

/// Relies on `str::contains` with a string pattern: whether `pat` occurs in `s`.
#[verifier::external_body]
fn contains_substring(s: &String, pat: &String) -> (r: bool)
    ensures
        r == is_substring(pat@, s@),
{
    s.as_str().contains(pat.as_str())
}

/// An edge mentions function `name` when the file name of either endpoint
/// contains it.
pub open spec fn mentions(e: EdgeView, name: Seq<char>) -> bool {
    is_substring(name, file_name_of(e.source)) || is_substring(name, file_name_of(e.target))
}

/// The edges that mention `name`, in insertion order.
pub open spec fn edges_mentioning(edges: Seq<EdgeView>, name: Seq<char>) -> Seq<EdgeView>
    decreases edges.len(),
{
    if edges.len() == 0 {
        Seq::empty()
    } else {
        let prev = edges_mentioning(edges.drop_last(), name);
        if mentions(edges.last(), name) {
            prev.push(edges.last())
        } else {
            prev
        }
    }
}

/// Some edge leads from `a` to `b`.
pub open spec fn has_edge(edges: Seq<EdgeView>, a: Seq<char>, b: Seq<char>) -> bool {
    exists|i: int| 0 <= i < edges.len() && edges[i].source == a && edges[i].target == b
}

/// Some edge of kind `k` leads from `a` to `b`.
pub open spec fn has_kind_edge(edges: Seq<EdgeView>, a: Seq<char>, b: Seq<char>, k: DependencyType) -> bool {
    exists|i: int| 0 <= i < edges.len() && edges[i] == (EdgeView { source: a, target: b, kind: k })
}

/// `p` is a walk along `edges` that starts at `start`.
pub open spec fn walk_from(edges: Seq<EdgeView>, start: Seq<char>, p: Seq<Seq<char>>) -> bool {
    &&& p.len() >= 1
    &&& p[0] == start
    &&& forall|k: int| #![trigger p[k]] 0 <= k < p.len() - 1 ==> has_edge(edges, p[k], p[k + 1])
}

/// The targets of the edges that leave a node of `s`.
pub open spec fn successors(edges: Seq<EdgeView>, s: Set<Seq<char>>) -> Set<Seq<char>> {
    Set::new(|t: Seq<char>| exists|i: int| 0 <= i < edges.len() && s.contains(edges[i].source) && edges[i].target == t)
}

/// The nodes reachable from `start` in at most `n` hops.
pub open spec fn within(edges: Seq<EdgeView>, start: Seq<char>, n: nat) -> Set<Seq<char>>
    decreases n,
{
    if n == 0 {
        set![start]
    } else {
        let prev = within(edges, start, (n - 1) as nat);
        prev.union(successors(edges, prev))
    }
}

/// The nodes whose distance from `start` is exactly `n`.
pub open spec fn layer(edges: Seq<EdgeView>, start: Seq<char>, n: nat) -> Set<Seq<char>> {
    if n == 0 {
        set![start]
    } else {
        within(edges, start, n).difference(within(edges, start, (n - 1) as nat))
    }
}

/// The inheritance parent of `n`: the target of its first inheritance edge.
pub open spec fn parent_of(edges: Seq<EdgeView>, n: Seq<char>) -> Option<Seq<char>> {
    let ts = targets_of_kind(edges, n, DependencyType::Inheritance);
    if ts.len() > 0 {
        Some(ts[0])
    } else {
        None
    }
}

/// The `k`-th inheritance ancestor of `n` (`n` itself for `k == 0`).
pub open spec fn ancestor(edges: Seq<EdgeView>, n: Seq<char>, k: nat) -> Option<Seq<char>>
    decreases k,
{
    if k == 0 {
        Some(n)
    } else {
        match ancestor(edges, n, (k - 1) as nat) {
            Some(a) => parent_of(edges, a),
            None => None,
        }
    }
}

/// Ancestors `1..=d` of `n` all exist and are pairwise distinct.
pub open spec fn distinct_chain(edges: Seq<EdgeView>, n: Seq<char>, d: nat) -> bool {
    &&& forall|k: nat| 1 <= k <= d ==> (#[trigger] ancestor(edges, n, k)) is Some
    &&& forall|i: nat, j: nat|
        1 <= i < j <= d ==> #[trigger] ancestor(edges, n, i) != #[trigger] ancestor(edges, n, j)
}

/// Every endpoint of `edges` is a node and no node is listed twice.
pub open spec fn graph_wf(g: GraphView) -> bool {
    &&& g.nodes.no_duplicates()
    &&& forall|i: int|
        0 <= i < g.edges.len() ==> g.nodes.contains(#[trigger] g.edges[i].source)
            && g.nodes.contains(g.edges[i].target)
}

impl View for DependencyGraph {
    type V = GraphView;

    closed spec fn view(&self) -> GraphView {
        GraphView {
            nodes: self.nodes@.map_values(|n: Node| n.path@),
            edges: self.edges@.map_values(|e: Edge| e.edge_view()),
            node_metadata: self.nodes@.map_values(|n: Node| pairs_view(n.metadata@)),
        }
    }
}

proof fn lemma_targets_of_kind_in_edges(edges: Seq<EdgeView>, f: Seq<char>, k: DependencyType, j: int)
    requires
        0 <= j < targets_of_kind(edges, f, k).len(),
    ensures
        exists|i: int|
            0 <= i < edges.len() && edges[i].source == f && edges[i].kind == k
                && #[trigger] edges[i].target == targets_of_kind(edges, f, k)[j],
    decreases edges.len(),
{
    let prev = targets_of_kind(edges.drop_last(), f, k);
    if j < prev.len() {
        lemma_targets_of_kind_in_edges(edges.drop_last(), f, k, j);
        let i = choose|i: int|
            0 <= i < edges.drop_last().len() && edges.drop_last()[i].source == f
                && edges.drop_last()[i].kind == k && #[trigger] edges.drop_last()[i].target == prev[j];
        assert(edges[i] == edges.drop_last()[i]);
    } else {
        assert(edges[edges.len() - 1] == edges.last());
    }
}

/// Pairwise distinct edge targets are no more than the edges.
proof fn lemma_distinct_targets_bounded(edges: Seq<EdgeView>, vs: Seq<Seq<char>>)
    requires
        vs.no_duplicates(),
        forall|x: Seq<char>| #[trigger] vs.contains(x) ==> exists|i: int| 0 <= i < edges.len() && edges[i].target == x,
    ensures
        vs.len() <= edges.len(),
{
    let ts = edges.map_values(|e: EdgeView| e.target);
    assert(vs.to_set().subset_of(ts.to_set())) by {
        assert forall|x| vs.to_set().contains(x) implies ts.to_set().contains(x) by {
            assert(vs.contains(x));
            let i = choose|i: int| 0 <= i < edges.len() && edges[i].target == x;
            assert(ts[i] == x);
        }
    }
    vs.unique_seq_to_set();
    ts.lemma_cardinality_of_set();
    vstd::set_lib::lemma_len_subset(vs.to_set(), ts.to_set());
}

/// One more hop adds exactly the successors of the outermost layer.
proof fn lemma_within_step(edges: Seq<EdgeView>, start: Seq<char>, n: nat)
    ensures
        within(edges, start, n + 1) == within(edges, start, n).union(successors(edges, layer(edges, start, n))),
{
    let w = within(edges, start, n);
    let l = layer(edges, start, n);
    assert(within(edges, start, n + 1) == w.union(successors(edges, w)));
    assert forall|t| successors(edges, w).contains(t) implies w.union(successors(edges, l)).contains(t) by {
        let i = choose|i: int| 0 <= i < edges.len() && w.contains(edges[i].source) && edges[i].target == t;
        if !l.contains(edges[i].source) {
            assert(n > 0);
            let pw = within(edges, start, (n - 1) as nat);
            assert(pw.contains(edges[i].source));
            assert(successors(edges, pw).contains(t));
        } else {
            assert(successors(edges, l).contains(t));
        }
    }
    assert forall|t| successors(edges, l).contains(t) implies successors(edges, w).contains(t) by {
        let i = choose|i: int| 0 <= i < edges.len() && l.contains(edges[i].source) && edges[i].target == t;
        assert(w.contains(edges[i].source));
    }
    assert(within(edges, start, n + 1) =~= w.union(successors(edges, l)));
}

/// Once a hop adds nothing, no further hop does.
proof fn lemma_within_stable(edges: Seq<EdgeView>, start: Seq<char>, n: nat, m: nat)
    requires
        within(edges, start, n + 1) == within(edges, start, n),
        n <= m,
    ensures
        within(edges, start, m) == within(edges, start, n),
    decreases m - n,
{
    if m > n {
        lemma_within_stable(edges, start, n, (m - 1) as nat);
    }
}

/// A copy of a metadata list.
fn clone_pairs(m: &Vec<(String, String)>) -> (r: Vec<(String, String)>)
    ensures
        pairs_view(r@) == pairs_view(m@),
{
    let mut out: Vec<(String, String)> = Vec::new();
    let mut i: usize = 0;
    while i < m.len()
        invariant
            i <= m.len(),
            pairs_view(out@) == pairs_view(m@).subrange(0, i as int),
        decreases m.len() - i,
    {
        let p = (m[i].0.clone(), m[i].1.clone());
        let ghost prev = out@;
        out.push(p);
        proof {
            assert(pairs_view(out@) =~= pairs_view(prev).push((p.0@, p.1@)));
            assert(pairs_view(out@) =~= pairs_view(m@).subrange(0, i + 1));
        }
        i += 1;
    }
    proof {
        assert(pairs_view(m@).subrange(0, m.len() as int) =~= pairs_view(m@));
    }
    out
}

/// The position of the frontier entry for node `x`.
fn find_entry(frontier: &Vec<(String, Vec<String>)>, x: &String) -> (r: Option<usize>)
    ensures
        match r {
            Some(j) => j < frontier.len() && frontier@[j as int].0@ == x@,
            None => forall|j: int| 0 <= j < frontier.len() ==> frontier@[j].0@ != x@,
        },
{
    let mut i: usize = 0;
    while i < frontier.len()
        invariant
            i <= frontier.len(),
            forall|j: int| 0 <= j < i ==> frontier@[j].0@ != x@,
        decreases frontier.len() - i,
    {
        if frontier[i].0 == *x {
            return Some(i);
        }
        i += 1;
    }
    None
}

/// Graph round trip: the targets recorded for `s` are exactly the targets of
/// the facts whose source is `s`, whatever their order and multiplicity.
pub proof fn lemma_dependencies_round_trip(facts: Seq<EdgeView>, s: Seq<char>)
    ensures
        targets_from(facts, s).to_set() == Set::new(
            |t: Seq<char>| exists|i: int| 0 <= i < facts.len() && facts[i].source == s && facts[i].target == t,
        ),
    decreases facts.len(),
{
    if facts.len() > 0 {
        let init = facts.drop_last();
        lemma_dependencies_round_trip(init, s);
        assert forall|t| #[trigger] targets_from(facts, s).to_set().contains(t) <==> exists|i: int| 0 <= i < facts.len() && facts[i].source == s && facts[i].target == t by {
            if exists|i: int| 0 <= i < facts.len() && facts[i].source == s && facts[i].target == t {
                let i = choose|i: int| 0 <= i < facts.len() && facts[i].source == s && facts[i].target == t;
                if i < init.len() {
                    assert(init[i] == facts[i]);
                    assert(targets_from(init, s).to_set().contains(t));
                }
            }
            if targets_from(init, s).to_set().contains(t) {
                let i = choose|i: int| 0 <= i < init.len() && init[i].source == s && init[i].target == t;
                assert(facts[i] == init[i]);
            }
        }
        assert(targets_from(facts, s).to_set() =~= Set::new(
            |t: Seq<char>| exists|i: int| 0 <= i < facts.len() && facts[i].source == s && facts[i].target == t,
        ));
    } else {
        assert(targets_from(facts, s).to_set() =~= Set::new(
            |t: Seq<char>| exists|i: int| 0 <= i < facts.len() && facts[i].source == s && facts[i].target == t,
        ));
    }
}

/// Graph round trip on a fresh graph: after `add_dependencies(deps)` on an
/// empty graph, the targets recorded for `s` are exactly those of the facts
/// whose source is `s`.
pub proof fn lemma_fresh_graph_round_trip(before: GraphView, after: GraphView, deps: Seq<Dependency>, s: Seq<char>)
    requires
        before.edges.len() == 0,
        after.edges == before.edges + edge_views(deps),
    ensures
        targets_from(after.edges, s).to_set() == Set::new(
            |t: Seq<char>| exists|i: int| 0 <= i < deps.len() && deps[i].source@ == s && deps[i].target@ == t,
        ),
{
    assert(after.edges =~= edge_views(deps));
    lemma_dependencies_round_trip(after.edges, s);
    assert forall|t: Seq<char>| #[trigger] targets_from(after.edges, s).to_set().contains(t)
        <==> (exists|i: int| 0 <= i < deps.len() && deps[i].source@ == s && deps[i].target@ == t) by {
        if exists|i: int| 0 <= i < deps.len() && deps[i].source@ == s && deps[i].target@ == t {
            let i = choose|i: int| 0 <= i < deps.len() && deps[i].source@ == s && deps[i].target@ == t;
            assert(after.edges[i] == deps[i].edge_view());
        }
        if targets_from(after.edges, s).to_set().contains(t) {
            let i = choose|i: int| 0 <= i < after.edges.len() && after.edges[i].source == s && after.edges[i].target == t;
            assert(after.edges[i] == deps[i].edge_view());
        }
    }
    assert(targets_from(after.edges, s).to_set() =~= Set::new(
        |t: Seq<char>| exists|i: int| 0 <= i < deps.len() && deps[i].source@ == s && deps[i].target@ == t,
    ));
}

/// Cycle safety: when `a` and `b` are each other's inheritance parent, no
/// inheritance depth exists for `a`, so its depth query reports the cycle.
pub proof fn lemma_inheritance_two_cycle(edges: Seq<EdgeView>, a: Seq<char>, b: Seq<char>)
    requires
        parent_of(edges, a) == Some(b),
        parent_of(edges, b) == Some(a),
    ensures
        forall|d: nat|
            !(distinct_chain(edges, a, d) && #[trigger] ancestor(edges, a, d) is Some
                && parent_of(edges, ancestor(edges, a, d)->0) is None),
{
    assert(ancestor(edges, a, 0) == Some(a));
    assert(ancestor(edges, a, 1) == Some(b));
    assert(ancestor(edges, a, 2) == Some(a));
    assert(ancestor(edges, a, 3) == Some(b));
    assert forall|d: nat|
        !(distinct_chain(edges, a, d) && #[trigger] ancestor(edges, a, d) is Some
            && parent_of(edges, ancestor(edges, a, d)->0) is None) by {
        if d >= 3 && distinct_chain(edges, a, d) {
            assert(ancestor(edges, a, 1) != ancestor(edges, a, 3));
        }
    }
}

/// Reverse lookup: the source of every function-call edge is among the
/// callers of its target.
pub proof fn lemma_callers_complete(edges: Seq<EdgeView>, i: int)
    requires
        0 <= i < edges.len(),
        edges[i].kind == DependencyType::FunctionCall,
    ensures
        callers_spec(edges, edges[i].target).contains(edges[i].source),
    decreases edges.len(),
{
    let init = edges.drop_last();
    if i < init.len() {
        assert(init[i] == edges[i]);
        lemma_callers_complete(init, i);
    } else {
        let cs = callers_spec(edges, edges[i].target);
        assert(cs[cs.len() - 1] == edges[i].source);
    }
}

/// More hops reach at least the nodes that fewer hops reach.
pub proof fn lemma_within_monotone(edges: Seq<EdgeView>, start: Seq<char>, m: nat, n: nat)
    requires
        m <= n,
    ensures
        within(edges, start, m).subset_of(within(edges, start, n)),
    decreases n - m,
{
    if m < n {
        lemma_within_monotone(edges, start, m, (n - 1) as nat);
    }
}

impl DependencyGraph {
    pub open spec fn wf(&self) -> bool {
        graph_wf(self@)
    }

    /// An empty graph.
    pub fn new() -> (r: Self)
        ensures
            r.wf(),
            r@.nodes.len() == 0,
            r@.edges.len() == 0,
    {
        let r = DependencyGraph { nodes: Vec::new(), edges: Vec::new() };
        assert(r@.nodes =~= Seq::<Seq<char>>::empty());
        r
    }

    /// The position of the node keyed `path`, if there is one.
    fn find_node(&self, path: &String) -> (r: Option<usize>)
        ensures
            match r {
                Some(i) => i < self@.nodes.len() && self@.nodes[i as int] == path@,
                None => !self@.nodes.contains(path@),
            },
    {
        let mut i: usize = 0;
        while i < self.nodes.len()
            invariant
                i <= self.nodes.len(),
                forall|j: int| 0 <= j < i ==> self@.nodes[j] != path@,
            decreases self.nodes.len() - i,
        {
            if self.nodes[i].path == *path {
                return Some(i);
            }
            i += 1;
        }
        None
    }

    /// Creates the node keyed `path` unless it exists already.
    fn add_node(&mut self, path: &String, node_type: NodeType)
        requires
            old(self).wf(),
        ensures
            final(self).wf(),
            final(self)@.edges == old(self)@.edges,
            final(self)@.nodes.to_set() == old(self)@.nodes.to_set().insert(path@),
    {
        match self.find_node(path) {
            Some(_) => {
                proof {
                    assert(self@.nodes.to_set() =~= self@.nodes.to_set().insert(path@));
                }
            },
            None => {
                let ghost old_nodes = self@.nodes;
                self.nodes.push(Node { path: path.clone(), metadata: Vec::new(), node_type });
                proof {
                    assert(self@.nodes =~= old_nodes.push(path@));
                    assert(self@.edges =~= old(self)@.edges);
                    assert(self@.nodes.to_set() =~= old_nodes.to_set().insert(path@)) by {
                        assert forall|x| self@.nodes.contains(x) <==> old_nodes.to_set().insert(path@).contains(x) by {
                            if self@.nodes.contains(x) {
                                let k = choose|k: int| 0 <= k < self@.nodes.len() && self@.nodes[k] == x;
                                if k < old_nodes.len() {
                                    assert(old_nodes.contains(x));
                                }
                            }
                            if old_nodes.contains(x) {
                                let k = choose|k: int| 0 <= k < old_nodes.len() && old_nodes[k] == x;
                                assert(self@.nodes[k] == x);
                            }
                            if x == path@ {
                                assert(self@.nodes[old_nodes.len() as int] == x);
                            }
                        }
                    }
                }
            },
        }
    }

    /// Records each dependency fact as an edge, creating its endpoints as
    /// nodes where they are new. Parallel edges are kept.
    pub fn add_dependencies(&mut self, deps: Vec<Dependency>) -> (r: Result<(), String>)
        requires
            old(self).wf(),
        ensures
            r is Ok,
            final(self).wf(),
            final(self)@.edges == old(self)@.edges + edge_views(deps@),
            final(self)@.nodes.to_set() == old(self)@.nodes.to_set().union(
                edge_views(deps@).map_values(|e: EdgeView| e.source).to_set().union(
                    edge_views(deps@).map_values(|e: EdgeView| e.target).to_set(),
                ),
            ),
    {
        let ghost old_view = self@;
        let ghost dv = edge_views(deps@);
        let ghost dseq = deps@;
        for dep in iter: deps.into_iter()
            invariant
                self.wf(),
                iter.seq() == dseq,
                dv == edge_views(dseq),
                self@.edges == old_view.edges + dv.subrange(0, iter.index() as int),
                self@.nodes.to_set() == old_view.nodes.to_set().union(
                    dv.subrange(0, iter.index() as int).map_values(|e: EdgeView| e.source).to_set().union(
                        dv.subrange(0, iter.index() as int).map_values(|e: EdgeView| e.target).to_set(),
                    ),
                ),
        {
            let ghost k = iter.index();
            {
                {
                    let ghost prev_nodes = self@.nodes.to_set();
                    self.add_node(&dep.source, NodeType::File);
                    self.add_node(&dep.target, NodeType::File);
                    let ghost mid_edges = self@.edges;
                    self.edges.push(
                        Edge {
                            source: dep.source,
                            target: dep.target,
                            edge_type: dep.dependency_type,
                            metadata: dep.metadata,
                        },
                    );
                    proof {
                        let ev = dv[k as int];
                        assert(self@.edges =~= mid_edges.push(ev));
                        let s0 = dv.subrange(0, k as int);
                        let s1 = dv.subrange(0, k + 1);
                        assert(s1 =~= s0.push(ev));
                        assert(self@.edges =~= old_view.edges + s1);
                        assert(s1.map_values(|e: EdgeView| e.source) =~= s0.map_values(|e: EdgeView| e.source).push(ev.source));
                        assert(s1.map_values(|e: EdgeView| e.target) =~= s0.map_values(|e: EdgeView| e.target).push(ev.target));
                        assert(s1.map_values(|e: EdgeView| e.source).to_set() =~= s0.map_values(|e: EdgeView| e.source).to_set().insert(ev.source));
                        assert(s1.map_values(|e: EdgeView| e.target).to_set() =~= s0.map_values(|e: EdgeView| e.target).to_set().insert(ev.target));
                        assert(self@.nodes.to_set() =~= old_view.nodes.to_set().union(
                            s1.map_values(|e: EdgeView| e.source).to_set().union(
                                s1.map_values(|e: EdgeView| e.target).to_set())));
                        assert(self@.nodes.contains(ev.source) && self@.nodes.contains(ev.target)) by {
                            assert(self@.nodes.to_set().contains(ev.source));
                            assert(self@.nodes.to_set().contains(ev.target));
                        }
                        assert forall|i: int| 0 <= i < self@.edges.len() implies self@.nodes.contains(
                            #[trigger] self@.edges[i].source,
                        ) && self@.nodes.contains(self@.edges[i].target) by {
                            if i < mid_edges.len() {
                                assert(self@.edges[i] == mid_edges[i]);
                            }
                        }
                    }
                }
            }
        }
        proof {
            assert(dv.subrange(0, dv.len() as int) =~= dv);
        }
        Ok(())
    }
    /// Targets of the edges that leave `file`, in insertion order.
    pub fn get_dependencies(&self, file: &String) -> (r: Result<Vec<String>, String>)
        ensures
            r is Ok,
            r->Ok_0.deep_view() == targets_from(self@.edges, file@),
    {
        let mut deps: Vec<String> = Vec::new();
        let mut i: usize = 0;
        while i < self.edges.len()
            invariant
                i <= self.edges.len(),
                deps.deep_view() == targets_from(self@.edges.subrange(0, i as int), file@),
            decreases self.edges.len() - i,
        {
            let ghost sub = self@.edges.subrange(0, i + 1);
            proof {
                assert(sub.drop_last() =~= self@.edges.subrange(0, i as int));
            }
            if self.edges[i].source == *file {
                deps.push(self.edges[i].target.clone());
                proof {
                    assert(deps.deep_view() =~= targets_from(sub, file@));
                }
            }
            i += 1;
        }
        proof {
            assert(self@.edges.subrange(0, self@.edges.len() as int) =~= self@.edges);
        }
        Ok(deps)
    }

    /// Targets of the edges of kind `kind` that leave `file`, in insertion order.
    fn targets_of_kind(&self, file: &String, kind: DependencyType) -> (r: Vec<String>)
        ensures
            r.deep_view() == targets_of_kind(self@.edges, file@, kind),
    {
        let mut deps: Vec<String> = Vec::new();
        let mut i: usize = 0;
        while i < self.edges.len()
            invariant
                i <= self.edges.len(),
                deps.deep_view() == targets_of_kind(self@.edges.subrange(0, i as int), file@, kind),
            decreases self.edges.len() - i,
        {
            let ghost sub = self@.edges.subrange(0, i + 1);
            proof {
                assert(sub.drop_last() =~= self@.edges.subrange(0, i as int));
            }
            if self.edges[i].source == *file && self.edges[i].edge_type == kind {
                deps.push(self.edges[i].target.clone());
                proof {
                    assert(deps.deep_view() =~= targets_of_kind(sub, file@, kind));
                }
            }
            i += 1;
        }
        proof {
            assert(self@.edges.subrange(0, self@.edges.len() as int) =~= self@.edges);
        }
        deps
    }

    /// Sources of the function-call edges that enter `target`, in insertion order.
    pub fn get_callers(&self, target: &String) -> (r: Result<Vec<String>, String>)
        ensures
            r is Ok,
            r->Ok_0.deep_view() == callers_spec(self@.edges, target@),
    {
        let mut callers: Vec<String> = Vec::new();
        let mut i: usize = 0;
        while i < self.edges.len()
            invariant
                i <= self.edges.len(),
                callers.deep_view() == callers_spec(self@.edges.subrange(0, i as int), target@),
            decreases self.edges.len() - i,
        {
            let ghost sub = self@.edges.subrange(0, i + 1);
            proof {
                assert(sub.drop_last() =~= self@.edges.subrange(0, i as int));
            }
            if self.edges[i].target == *target && self.edges[i].edge_type == DependencyType::FunctionCall {
                callers.push(self.edges[i].source.clone());
                proof {
                    assert(callers.deep_view() =~= callers_spec(sub, target@));
                }
            }
            i += 1;
        }
        proof {
            assert(self@.edges.subrange(0, self@.edges.len() as int) =~= self@.edges);
        }
        Ok(callers)
    }

    /// The outgoing edges of `file` grouped by relation name ("imports",
    /// "calls", "inherits", "uses", "defines", "uses_type", in that order);
    /// a relation without edges has no bucket.
    pub fn get_direct_relationships(&self, file: &String) -> (r: Result<Vec<(String, Vec<String>)>, String>)
        ensures
            r is Ok,
            r->Ok_0@.map_values(|b: (String, Vec<String>)| (b.0@, b.1.deep_view()))
                == buckets(self@.edges, file@, kind_order()),
    {
        let kinds: Vec<DependencyType> = vec![
            DependencyType::Import,
            DependencyType::FunctionCall,
            DependencyType::Inheritance,
            DependencyType::Usage,
            DependencyType::FunctionDefinition,
            DependencyType::TypeUsage,
        ];
        proof {
            assert(kinds@ =~= kind_order());
        }
        let mut out: Vec<(String, Vec<String>)> = Vec::new();
        let mut i: usize = 0;
        while i < kinds.len()
            invariant
                i <= kinds.len(),
                kinds@ == kind_order(),
                out@.map_values(|b: (String, Vec<String>)| (b.0@, b.1.deep_view()))
                    == buckets(self@.edges, file@, kinds@.subrange(0, i as int)),
            decreases kinds.len() - i,
        {
            let kind = kinds[i];
            let ghost sub = kinds@.subrange(0, i + 1);
            proof {
                assert(sub.drop_last() =~= kinds@.subrange(0, i as int));
            }
            let targets = self.targets_of_kind(file, kind);
            if targets.len() > 0 {
                let name = kind.relation_name();
                let ghost prev = out@;
                out.push((name, targets));
                proof {
                    assert(out@ =~= prev.push((name, targets)));
                    assert(out@.map_values(|b: (String, Vec<String>)| (b.0@, b.1.deep_view())) =~= buckets(self@.edges, file@, sub));
                }
            }
            i += 1;
        }
        proof {
            assert(kinds@.subrange(0, 6) =~= kinds@);
        }
        Ok(out)
    }
    /// The inheritance parent of `file`, if it has one.
    pub fn find_parent(&self, file: &String) -> (r: Result<Option<String>, String>)
        ensures
            r is Ok,
            match r->Ok_0 {
                Some(p) => parent_of(self@.edges, file@) == Some(p@),
                None => parent_of(self@.edges, file@) is None,
            },
    {
        let ts = self.targets_of_kind(file, DependencyType::Inheritance);
        if ts.len() > 0 {
            Ok(Some(ts[0].clone()))
        } else {
            Ok(None)
        }
    }

    /// The length of the inheritance chain above `file`, following the first
    /// inheritance edge of each node; an error once the chain revisits a node.
    pub fn calculate_inheritance_depth(&self, file: &String) -> (r: Result<usize, GraphError>)
        ensures
            match r {
                Ok(d) => distinct_chain(self@.edges, file@, d as nat)
                    && ancestor(self@.edges, file@, d as nat) is Some
                    && parent_of(self@.edges, ancestor(self@.edges, file@, d as nat)->0) is None,
                Err(e) => e == GraphError::CyclicInheritance && exists|i: nat, j: nat|
                    1 <= i < j && #[trigger] ancestor(self@.edges, file@, i) is Some
                        && ancestor(self@.edges, file@, i) == #[trigger] ancestor(self@.edges, file@, j),
            },
    {
        let ghost edges = self@.edges;
        let n_edges = self.edges.len();
        let mut depth: usize = 0;
        let mut current: String = file.clone();
        let mut visited: Vec<String> = Vec::new();
        loop
            invariant
                edges == self@.edges,
                edges.len() == n_edges,
                visited.len() == depth,
                depth <= edges.len(),
                ancestor(edges, file@, depth as nat) == Some(current@),
                forall|k: int| 0 <= k < depth ==> ancestor(edges, file@, (k + 1) as nat) == Some(#[trigger] visited.deep_view()[k]),
                visited.deep_view().no_duplicates(),
                forall|x: Seq<char>| #[trigger] visited.deep_view().contains(x) ==> exists|i: int| 0 <= i < edges.len() && edges[i].target == x,
            decreases edges.len() - depth,
        {
            let parent = match self.find_parent(&current) {
                Ok(Some(p)) => p,
                _ => {
                    proof {
                        assert forall|k: nat| 1 <= k <= depth implies (#[trigger] ancestor(edges, file@, k)) is Some by {
                            assert(ancestor(edges, file@, k) == Some(visited.deep_view()[k - 1]));
                        }
                        assert forall|i: nat, j: nat| 1 <= i < j <= depth implies #[trigger] ancestor(edges, file@, i) != #[trigger] ancestor(edges, file@, j) by {
                            assert(ancestor(edges, file@, i) == Some(visited.deep_view()[i - 1]));
                            assert(ancestor(edges, file@, j) == Some(visited.deep_view()[j - 1]));
                        }
                    }
                    return Ok(depth);
                },
            };
            proof {
                assert(ancestor(edges, file@, (depth + 1) as nat) == Some(parent@));
            }
            let mut seen = false;
            let mut k: usize = 0;
            while k < visited.len()
                invariant
                    k <= visited.len(),
                    !seen ==> forall|m: int| 0 <= m < k ==> visited.deep_view()[m] != parent@,
                    seen ==> visited.deep_view().contains(parent@),
                decreases visited.len() - k,
            {
                if visited[k] == parent {
                    seen = true;
                    proof {
                        assert(visited.deep_view()[k as int] == parent@);
                    }
                }
                k += 1;
            }
            if seen {
                proof {
                    let m = choose|m: int| 0 <= m < visited.len() && visited.deep_view()[m] == parent@;
                    let i = (m + 1) as nat;
                    let j = (depth + 1) as nat;
                    assert(ancestor(edges, file@, i) == Some(visited.deep_view()[m]));
                    assert(1 <= i < j && ancestor(edges, file@, i) is Some && ancestor(edges, file@, i) == ancestor(edges, file@, j));
                }
                return Err(GraphError::CyclicInheritance);
            }
            proof {
                let ts = targets_of_kind(edges, current@, DependencyType::Inheritance);
                lemma_targets_of_kind_in_edges(edges, current@, DependencyType::Inheritance, 0);
                let nv = visited.deep_view().push(parent@);
                assert(nv.no_duplicates());
                assert forall|x: Seq<char>| #[trigger] nv.contains(x) implies exists|i: int| 0 <= i < edges.len() && edges[i].target == x by {
                    if x != parent@ {
                        let m = choose|m: int| 0 <= m < nv.len() && nv[m] == x;
                        assert(visited.deep_view().contains(x)) by { assert(visited.deep_view()[m] == x); }
                    } else {
                        assert(ts[0] == parent@);
                    }
                }
                lemma_distinct_targets_bounded(edges, nv);
            }
            let ghost old_visited = visited.deep_view();
            visited.push(parent.clone());
            proof {
                assert(visited.deep_view() =~= old_visited.push(parent@));
            }
            depth += 1;
            current = parent;
        }
    }
    /// Breadth-first traversal from `start` along outgoing edges, at most
    /// `max_depth` hops: every node so reached, other than `start`, is
    /// reported once, at its hop distance and with a shortest walk to it.
    pub fn get_indirect_relationships_within(&self, start: &String, max_depth: usize) -> (r: Result<Vec<IndirectRelationship>, String>)
        ensures
            r is Ok,
            reached_paths(r->Ok_0@).no_duplicates(),
            reached_paths(r->Ok_0@).to_set() == within(self@.edges, start@, max_depth as nat).remove(start@),
            forall|k: int|
                0 <= k < r->Ok_0.len() ==> reached_ok(self@.edges, start@, #[trigger] r->Ok_0@[k])
                    && r->Ok_0@[k].depth <= max_depth,
    {
        broadcast use vstd::std_specs::vec::group_vec_axioms;
        let ghost edges = self@.edges;
        let n_edges = self.edges.len();
        let mut results: Vec<IndirectRelationship> = Vec::new();
        let mut visited: Vec<String> = Vec::new();
        visited.push(start.clone());
        let mut start_path: Vec<String> = Vec::new();
        start_path.push(start.clone());
        let mut frontier: Vec<(String, Vec<String>)> = Vec::new();
        frontier.push((start.clone(), start_path));
        let mut level: usize = 0;
        proof {
            assert(visited.deep_view() =~= seq![start@] + reached_paths(results@));
            assert(visited.deep_view().to_set() =~= within(edges, start@, 0));
            assert(frontier@[0].0@ == start@);
            assert(frontier_set(frontier@) =~= layer(edges, start@, 0));
            assert(frontier_ok(edges, start@, 0, frontier@[0]));
        }
        while level < max_depth && frontier.len() > 0
            invariant
                edges == self@.edges,
                edges.len() == n_edges,
                level <= max_depth,
                visited.deep_view() == seq![start@] + reached_paths(results@),
                visited.deep_view().no_duplicates(),
                visited.deep_view().to_set() == within(edges, start@, level as nat),
                frontier_set(frontier@) == layer(edges, start@, level as nat),
                forall|j: int| 0 <= j < frontier.len() ==> frontier_ok(edges, start@, level as int, #[trigger] frontier@[j]),
                forall|k: int| 0 <= k < results.len() ==> reached_ok(edges, start@, #[trigger] results@[k]) && results@[k].depth <= level,
            decreases max_depth - level,
        {
            let ghost fset = frontier_set(frontier@);
            let ghost w = within(edges, start@, level as nat);
            proof {
                if level == 0 {
                    assert(fset =~= w);
                } else {
                    assert(fset.subset_of(w));
                }
            }
            let mut next: Vec<(String, Vec<String>)> = Vec::new();
            let mut i: usize = 0;
            proof {
                assert(successors(edges.subrange(0, 0), fset) =~= Set::empty());
                assert(visited.deep_view().to_set() =~= w.union(successors(edges.subrange(0, 0), fset)));
                assert(frontier_set(next@) =~= successors(edges.subrange(0, 0), fset).difference(w));
            }
            while i < self.edges.len()
                invariant
                    edges == self@.edges,
                    edges.len() == n_edges,
                    i <= n_edges,
                    level < max_depth,
                    fset == frontier_set(frontier@),
                    fset.subset_of(w),
                    forall|j: int| 0 <= j < frontier.len() ==> frontier_ok(edges, start@, level as int, #[trigger] frontier@[j]),
                    w == within(edges, start@, level as nat),
                    visited.deep_view() == seq![start@] + reached_paths(results@),
                    visited.deep_view().no_duplicates(),
                    visited.deep_view().to_set() == w.union(successors(edges.subrange(0, i as int), fset)),
                    frontier_set(next@) == successors(edges.subrange(0, i as int), fset).difference(w),
                    forall|j: int| 0 <= j < next.len() ==> frontier_ok(edges, start@, level + 1, #[trigger] next@[j]),
                    forall|k: int| 0 <= k < results.len() ==> reached_ok(edges, start@, #[trigger] results@[k]) && results@[k].depth <= level + 1,
                decreases n_edges - i,
            {
                let ghost ev = edges[i as int];
                let ghost sub0 = edges.subrange(0, i as int);
                let ghost sub1 = edges.subrange(0, i + 1);
                let ghost found = successors(sub0, fset);
                let ghost found2 = successors(sub1, fset);
                proof {
                    assert(self.edges@[i as int].edge_view() == ev);
                    if fset.contains(ev.source) {
                        assert forall|t| found2.contains(t) <==> found.insert(ev.target).contains(t) by {
                            if found2.contains(t) {
                                let k = choose|k: int| 0 <= k < i + 1 && fset.contains(sub1[k].source) && sub1[k].target == t;
                                if k < i {
                                    assert(sub0[k] == sub1[k]);
                                }
                            }
                            if found.contains(t) {
                                let k = choose|k: int| 0 <= k < i && fset.contains(sub0[k].source) && sub0[k].target == t;
                                assert(sub0[k] == sub1[k]);
                            }
                            if t == ev.target {
                                assert(sub1[i as int] == ev);
                            }
                        }
                        assert(found2 =~= found.insert(ev.target));
                    } else {
                        assert forall|t| found2.contains(t) <==> found.contains(t) by {
                            if found2.contains(t) {
                                let k = choose|k: int| 0 <= k < i + 1 && fset.contains(sub1[k].source) && sub1[k].target == t;
                                assert(k != i);
                                assert(sub0[k] == sub1[k]);
                            }
                            if found.contains(t) {
                                let k = choose|k: int| 0 <= k < i && fset.contains(sub0[k].source) && sub0[k].target == t;
                                assert(sub0[k] == sub1[k]);
                            }
                        }
                        assert(found2 =~= found);
                    }
                }
                match find_entry(&frontier, &self.edges[i].source) {
                    Some(j) => {
                        proof {
                            assert(fset.contains(ev.source));
                        }
                        if !vec_contains(&visited, &self.edges[i].target) {
                            let t = self.edges[i].target.clone();
                            let kind = self.edges[i].edge_type;
                            let mut path = frontier[j].1.clone();
                            let ghost walk0 = path.deep_view();
                            path.push(t.clone());
                            let ghost walk1 = path.deep_view();
                            proof {
                                assert(frontier_ok(edges, start@, level as int, frontier@[j as int]));
                                assert(walk1 =~= walk0.push(t@));
                                assert(has_edge(edges, ev.source, ev.target));
                                assert(walk_from(edges, start@, walk1)) by {
                                    assert forall|k: int| #![trigger walk1[k]] 0 <= k < walk1.len() - 1 implies has_edge(edges, walk1[k], walk1[k + 1]) by {
                                        if k < walk0.len() - 1 {
                                            assert(walk1[k] == walk0[k] && walk1[k + 1] == walk0[k + 1]);
                                        } else {
                                            assert(walk1[k] == walk0.last());
                                        }
                                    }
                                }
                                assert(has_kind_edge(edges, walk1[level as int], t@, kind)) by {
                                    assert(edges[i as int] == (EdgeView { source: walk1[level as int], target: t@, kind }));
                                }
                                assert(successors(edges, w).contains(t@));
                                assert(!w.contains(t@)) by {
                                    if w.contains(t@) {
                                        assert(visited.deep_view().to_set().contains(t@));
                                    }
                                }
                            }
                            let ghost old_visited = visited.deep_view();
                            let ghost old_results = results@;
                            let ghost old_next = next@;
                            visited.push(t.clone());
                            next.push((t.clone(), path.clone()));
                            let rel = IndirectRelationship {
                                path: t,
                                relationship_type: kind,
                                depth: level + 1,
                                intermediate_nodes: path,
                            };
                            results.push(rel);
                            proof {
                                assert(reached_ok(edges, start@, rel));
                                assert(visited.deep_view() =~= old_visited.push(t@));
                                assert(reached_paths(results@) =~= reached_paths(old_results).push(t@));
                                assert(visited.deep_view() =~= seq![start@] + reached_paths(results@));
                                assert(visited.deep_view().to_set() =~= old_visited.to_set().insert(t@));
                                assert(visited.deep_view().to_set() =~= w.union(found2));
                                assert(next.len() == old_next.len() + 1);
                                assert(forall|j2: int| 0 <= j2 < old_next.len() ==> next@[j2] == old_next[j2]);
                                assert(next@[old_next.len() as int].0@ == t@);
                                assert(next@[old_next.len() as int].1.deep_view() == walk1);
                                assert forall|x| frontier_set(next@).contains(x) <==> frontier_set(old_next).insert(t@).contains(x) by {
                                    if frontier_set(next@).contains(x) {
                                        let j2 = choose|j2: int| 0 <= j2 < next@.len() && next@[j2].0@ == x;
                                        if j2 < old_next.len() {
                                            assert(old_next[j2].0@ == x);
                                        }
                                    }
                                    if frontier_set(old_next).contains(x) {
                                        let j2 = choose|j2: int| 0 <= j2 < old_next.len() && old_next[j2].0@ == x;
                                        assert(next@[j2].0@ == x);
                                    }
                                }
                                assert(frontier_set(next@) =~= frontier_set(old_next).insert(t@));
                                assert(frontier_set(next@) =~= found2.difference(w));
                                assert forall|k: int| 0 <= k < results.len() implies reached_ok(edges, start@, #[trigger] results@[k]) && results@[k].depth <= level + 1 by {
                                    if k < old_results.len() {
                                        assert(results@[k] == old_results[k]);
                                    }
                                }
                                assert forall|j2: int| 0 <= j2 < next.len() implies frontier_ok(edges, start@, level + 1, #[trigger] next@[j2]) by {
                                    if j2 < old_next.len() {
                                        assert(next@[j2] == old_next[j2]);
                                    }
                                }
                            }
                        } else {
                            proof {
                                assert(visited.deep_view().to_set().contains(ev.target));
                                assert(visited.deep_view().to_set() =~= w.union(found2));
                                assert(frontier_set(next@) =~= found2.difference(w));
                            }
                        }
                    },
                    None => {
                        proof {
                            if fset.contains(ev.source) {
                                let j = choose|j: int| 0 <= j < frontier@.len() && frontier@[j].0@ == ev.source;
                                assert(frontier@[j].0@ != self.edges@[i as int].source@);
                            }
                        }
                    },
                }
                i += 1;
            }
            proof {
                assert(edges.subrange(0, n_edges as int) =~= edges);
                lemma_within_step(edges, start@, level as nat);
                assert(within(edges, start@, (level + 1) as nat) =~= w.union(successors(edges, fset)));
                assert(frontier_set(next@) =~= layer(edges, start@, (level + 1) as nat));
            }
            frontier = next;
            level += 1;
        }
        proof {
            if level < max_depth {
                assert(frontier_set(frontier@) =~= Set::empty());
                if level == 0 {
                    assert(layer(edges, start@, 0).contains(start@));
                }
                let l1 = (level - 1) as nat;
                assert(within(edges, start@, l1 + 1) =~= within(edges, start@, l1)) by {
                    assert forall|x| within(edges, start@, l1 + 1).contains(x) implies within(edges, start@, l1).contains(x) by {
                        if !within(edges, start@, l1).contains(x) {
                            assert(layer(edges, start@, level as nat).contains(x));
                        }
                    }
                }
                lemma_within_stable(edges, start@, l1, max_depth as nat);
                lemma_within_stable(edges, start@, l1, level as nat);
            }
            let vs = visited.deep_view();
            let ps = reached_paths(results@);
            assert(ps.no_duplicates()) by {
                assert forall|a: int, b: int| 0 <= a < ps.len() && 0 <= b < ps.len() && a != b implies ps[a] != ps[b] by {
                    assert(vs[a + 1] == ps[a] && vs[b + 1] == ps[b]);
                }
            }
            assert(ps.to_set() =~= within(edges, start@, max_depth as nat).remove(start@)) by {
                assert forall|x| ps.to_set().contains(x) <==> vs.to_set().remove(start@).contains(x) by {
                    if ps.contains(x) {
                        let a = choose|a: int| 0 <= a < ps.len() && ps[a] == x;
                        assert(vs[a + 1] == x);
                        assert(vs[0] == start@);
                    }
                    if vs.contains(x) && x != start@ {
                        let a = choose|a: int| 0 <= a < vs.len() && vs[a] == x;
                        assert(a != 0);
                        assert(ps[a - 1] == x);
                    }
                }
            }
        }
        Ok(results)
    }
    /// `get_indirect_relationships_within` at the default bound of three hops.
    pub fn get_indirect_relationships(&self, file: &String) -> (r: Result<Vec<IndirectRelationship>, String>)
        ensures
            r is Ok,
            reached_paths(r->Ok_0@).no_duplicates(),
            reached_paths(r->Ok_0@).to_set() == within(self@.edges, file@, 3).remove(file@),
            forall|k: int|
                0 <= k < r->Ok_0.len() ==> reached_ok(self@.edges, file@, #[trigger] r->Ok_0@[k])
                    && r->Ok_0@[k].depth <= 3,
    {
        self.get_indirect_relationships_within(file, DEFAULT_INDIRECT_DEPTH)
    }

    /// A shortest walk from `start` to `end` (both included), or an empty
    /// list when `end` is not reachable in as many hops as there are edges.
    pub fn get_path_between(&self, start: &String, end: &String) -> (r: Result<Vec<String>, String>)
        ensures
            r is Ok,
            r->Ok_0.len() == 0 <==> !within(self@.edges, start@, self@.edges.len()).contains(end@),
            r->Ok_0.len() > 0 ==> {
                let p = r->Ok_0.deep_view();
                &&& walk_from(self@.edges, start@, p)
                &&& p.last() == end@
                &&& forall|d: nat| d + 1 < p.len() ==> !#[trigger] within(self@.edges, start@, d).contains(end@)
            },
    {
        let ghost edges = self@.edges;
        if *start == *end {
            let mut p: Vec<String> = Vec::new();
            p.push(start.clone());
            proof {
                assert(within(edges, start@, 0).contains(end@));
                lemma_within_monotone(edges, start@, 0, edges.len());
            }
            return Ok(p);
        }
        let reached = match self.get_indirect_relationships_within(start, self.edges.len()) {
            Ok(v) => v,
            Err(e) => return Err(e),
        };
        proof {
            assert(self.edges@.len() == edges.len());
        }
        let mut i: usize = 0;
        while i < reached.len()
            invariant
                i <= reached.len(),
                edges == self@.edges,
                start@ != end@,
                forall|k: int| 0 <= k < i ==> reached@[k].path@ != end@,
                reached_paths(reached@).to_set() == within(edges, start@, self.edges.len() as nat).remove(start@),
                forall|k: int|
                    0 <= k < reached.len() ==> reached_ok(edges, start@, #[trigger] reached@[k])
                        && reached@[k].depth <= self.edges.len(),
            decreases reached.len() - i,
        {
            if reached[i].path == *end {
                let p = reached[i].intermediate_nodes.clone();
                proof {
                    broadcast use vstd::std_specs::vec::group_vec_axioms;
                    let rel = reached@[i as int];
                    assert(reached_ok(edges, start@, rel));
                    assert(reached_paths(reached@)[i as int] == end@);
                    assert(within(edges, start@, edges.len()).remove(start@).contains(end@));
                    assert forall|d: nat| d + 1 < p.deep_view().len() implies !#[trigger] within(edges, start@, d).contains(end@) by {
                        lemma_within_monotone(edges, start@, d, (rel.depth - 1) as nat);
                    }
                }
                return Ok(p);
            }
            i += 1;
        }
        proof {
            if within(edges, start@, edges.len()).contains(end@) {
                assert(reached_paths(reached@).to_set().contains(end@));
                let k = choose|k: int| 0 <= k < reached_paths(reached@).len() && reached_paths(reached@)[k] == end@;
                assert(reached@[k].path@ == end@);
            }
        }
        Ok(Vec::new())
    }

    /// Incoming calls, outgoing edges, inheritance depth and node count of `file`.
    pub fn calculate_metrics(&self, file: &String) -> (r: Result<DependencyMetrics, String>)
        ensures
            r is Ok,
            r->Ok_0.incoming_dependencies == callers_spec(self@.edges, file@).len(),
            r->Ok_0.outgoing_dependencies == targets_from(self@.edges, file@).len(),
            r->Ok_0.cyclomatic_complexity == 0,
            r->Ok_0.node_count == self@.nodes.len(),
            match r->Ok_0.depth_of_inheritance {
                Ok(d) => distinct_chain(self@.edges, file@, d as nat)
                    && parent_of(self@.edges, ancestor(self@.edges, file@, d as nat)->0) is None
                    && ancestor(self@.edges, file@, d as nat) is Some,
                Err(e) => exists|i: nat, j: nat|
                    1 <= i < j && #[trigger] ancestor(self@.edges, file@, i) is Some
                        && ancestor(self@.edges, file@, i) == #[trigger] ancestor(self@.edges, file@, j),
            },
    {
        let incoming = match self.get_callers(file) {
            Ok(c) => c.len(),
            Err(e) => return Err(e),
        };
        let outgoing = match self.get_dependencies(file) {
            Ok(d) => d.len(),
            Err(e) => return Err(e),
        };
        let depth = self.calculate_inheritance_depth(file);
        proof {
            assert(self.nodes@.len() == self@.nodes.len());
        }
        Ok(DependencyMetrics {
            incoming_dependencies: incoming,
            outgoing_dependencies: outgoing,
            cyclomatic_complexity: 0,
            depth_of_inheritance: depth,
            node_count: self.nodes.len(),
        })
    }
    /// The edges, as dependency facts, whose source or target file name
    /// contains `function_name`, in insertion order.
    pub fn get_function_dependencies(&self, function_name: &String) -> (r: Result<Vec<Dependency>, String>)
        ensures
            r is Ok,
            edge_views(r->Ok_0@) == edges_mentioning(self@.edges, function_name@),
    {
        let mut deps: Vec<Dependency> = Vec::new();
        let mut i: usize = 0;
        while i < self.edges.len()
            invariant
                i <= self.edges.len(),
                edge_views(deps@) == edges_mentioning(self@.edges.subrange(0, i as int), function_name@),
            decreases self.edges.len() - i,
        {
            let ghost sub = self@.edges.subrange(0, i + 1);
            proof {
                assert(sub.drop_last() =~= self@.edges.subrange(0, i as int));
            }
            let edge = &self.edges[i];
            let source_name = file_name(&edge.source);
            let target_name = file_name(&edge.target);
            if contains_substring(&source_name, function_name) || contains_substring(&target_name, function_name) {
                let d = Dependency {
                    source: edge.source.clone(),
                    target: edge.target.clone(),
                    dependency_type: edge.edge_type,
                    metadata: edge.metadata.clone(),
                };
                let ghost prev = deps@;
                deps.push(d);
                proof {
                    assert(deps@ =~= prev.push(d));
                    assert(edge_views(deps@) =~= edge_views(prev).push(d.edge_view()));
                    assert(d.edge_view() == self@.edges[i as int]);
                }
            }
            i += 1;
        }
        proof {
            assert(self@.edges.subrange(0, self@.edges.len() as int) =~= self@.edges);
        }
        Ok(deps)
    }
    /// The metadata pairs of node `path`, in the order they were added.
    pub fn get_node_metadata(&self, path: &String) -> (r: Option<&Vec<(String, String)>>)
        ensures
            match r {
                Some(m) => exists|i: int|
                    0 <= i < self@.nodes.len() && self@.nodes[i] == path@ && #[trigger] self@.node_metadata[i] == pairs_view(m@),
                None => !self@.nodes.contains(path@),
            },
    {
        match self.find_node(path) {
            Some(i) => {
                proof {
                    assert(self@.node_metadata[i as int] == pairs_view(self.nodes@[i as int].metadata@));
                }
                Some(&self.nodes[i].metadata)
            },
            None => None,
        }
    }

    /// Appends `metadata` to the pairs of node `path`, so that a later pair
    /// of a key follows the earlier ones. A node that does not exist is an
    /// error.
    pub fn update_node_metadata(&mut self, path: &String, metadata: Vec<(String, String)>) -> (r: Result<(), String>)
        requires
            old(self).wf(),
        ensures
            final(self).wf(),
            r is Err <==> !old(self)@.nodes.contains(path@),
            final(self)@.nodes == old(self)@.nodes,
            final(self)@.edges == old(self)@.edges,
            forall|i: int|
                0 <= i < old(self)@.nodes.len() ==> #[trigger] final(self)@.node_metadata[i] == if old(self)@.nodes[i] == path@ {
                    old(self)@.node_metadata[i] + pairs_view(metadata@)
                } else {
                    old(self)@.node_metadata[i]
                },
    {
        match self.find_node(path) {
            None => Err("Node not found".to_owned()),
            Some(i) => {
                let ghost old_nodes = self.nodes@;
                let mut node = self.nodes.remove(i);
                let ghost before = node.metadata@;
                let mut extra = metadata;
                node.metadata.append(&mut extra);
                self.nodes.insert(i, node);
                proof {
                    assert(self.nodes@ =~= old_nodes.update(i as int, node));
                    assert(pairs_view(node.metadata@) =~= pairs_view(before) + pairs_view(metadata@));
                    assert(self@.nodes =~= old(self)@.nodes);
                    assert forall|j: int| 0 <= j < old(self)@.nodes.len() implies #[trigger] self@.node_metadata[j] == if old(self)@.nodes[j] == path@ {
                        old(self)@.node_metadata[j] + pairs_view(metadata@)
                    } else {
                        old(self)@.node_metadata[j]
                    } by {
                        if j != i {
                            assert(old(self)@.nodes[j] != path@) by {
                                assert(old(self)@.nodes[i as int] == path@);
                            }
                        }
                    }
                }
                Ok(())
            },
        }
    }

    /// Everything the graph knows of `file`: its targets, callers, direct and
    /// indirect relationships, metrics, and node metadata.
    pub fn get_llamaindex_metadata(&self, file: &String) -> (r: Result<NodeSummary, String>)
        ensures
            r is Ok,
            r->Ok_0.file_path@ == file@,
            r->Ok_0.dependencies.deep_view() == targets_from(self@.edges, file@),
            r->Ok_0.callers.deep_view() == callers_spec(self@.edges, file@),
            r->Ok_0.direct@.map_values(|b: (String, Vec<String>)| (b.0@, b.1.deep_view()))
                == buckets(self@.edges, file@, kind_order()),
            reached_paths(r->Ok_0.indirect@).to_set() == within(self@.edges, file@, 3).remove(file@),
            reached_paths(r->Ok_0.indirect@).no_duplicates(),
            forall|k: int| 0 <= k < r->Ok_0.indirect.len() ==> reached_ok(self@.edges, file@, #[trigger] r->Ok_0.indirect@[k]),
            r->Ok_0.metrics.incoming_dependencies == callers_spec(self@.edges, file@).len(),
            r->Ok_0.metrics.outgoing_dependencies == targets_from(self@.edges, file@).len(),
            r->Ok_0.metrics.node_count == self@.nodes.len(),
            match r->Ok_0.node_metadata {
                Some(m) => exists|i: int|
                    0 <= i < self@.nodes.len() && self@.nodes[i] == file@ && #[trigger] self@.node_metadata[i] == pairs_view(m@),
                None => !self@.nodes.contains(file@),
            },
    {
        let dependencies = self.get_dependencies(file)?;
        let callers = self.get_callers(file)?;
        let direct = self.get_direct_relationships(file)?;
        let indirect = self.get_indirect_relationships(file)?;
        let metrics = self.calculate_metrics(file)?;
        let node_metadata = match self.get_node_metadata(file) {
            Some(m) => Some(clone_pairs(m)),
            None => None,
        };
        let r = NodeSummary { file_path: file.clone(), dependencies, callers, direct, indirect, metrics, node_metadata };
        Ok(r)
    }
}

} // verus!
