//! A directed graph of named variables, stored in a petgraph `DiGraph`.
use petgraph::algo::toposort;
use petgraph::dot::dot_parser::{DotParsingError, ParseFromDot};
use petgraph::graph::{DiGraph, EdgeIndex, NodeIndex};
use petgraph::Direction;
use crate::error::CausalError;
use vstd::prelude::*;

verus! {

#[verifier::external_type_specification]
#[verifier::external_body]
#[verifier::reject_recursive_types(N)]
#[verifier::reject_recursive_types(E)]
#[verifier::reject_recursive_types(Ty)]
#[verifier::reject_recursive_types(Ix)]
pub struct ExGraph<N, E, Ty, Ix>(petgraph::graph::Graph<N, E, Ty, Ix>);

#[verifier::external_type_specification]
#[verifier::external_body]
pub struct ExDirected(petgraph::Directed);

#[verifier::external_type_specification]
#[verifier::external_body]
pub struct ExDotParsingError(DotParsingError);

/// The graph that a DOT text describes: the set of node ids, and the edges in
/// the order the text gives them, each as the ids of its two ends; `None` when
/// the text is not valid DOT.
pub uninterp spec fn dot_graph(text: Seq<char>) -> Option<(Set<Seq<char>>, Seq<(Seq<char>, Seq<char>)>)>;

/// The number of times `c` occurs in `s`.
pub open spec fn count_char(s: Seq<char>, c: char) -> nat
    decreases s.len(),
{
    if s.len() == 0 {
        0
    } else {
        count_char(s.drop_last(), c) + if s.last() == c {
            1nat
        } else {
            0nat
        }
    }
}

/// The DOT texts this library parses: shorter than 4096 characters and with
/// at most 10 opening braces.
pub open spec fn dot_text_ok(text: Seq<char>) -> bool {
    text.len() < 4096 && count_char(text, '{') <= 10
}

/// The edges of a graph as pairs of node names.
pub open spec fn edge_names(nodes: Seq<Seq<char>>, edges: Seq<(usize, usize)>) -> Seq<
    (Seq<char>, Seq<char>),
> {
    edges.map_values(|e: (usize, usize)| (nodes[e.0 as int], nodes[e.1 as int]))
}

/// Relies on petgraph's `ParseFromDot::try_from`, with `Graph::map` keeping
/// each node's DOT id and dropping the attributes. Nodes are added in the
/// order of a hash map of ids, so only the set of ids (each once) and the
/// edges by their ends' ids are fixed by the text. A text shorter than 4096
/// characters has fewer than `u32::MAX` nodes and edges, so the index limits
/// of `add_node` and `add_edge` are never reached, and its chains of edges
/// and attributes (which the grammar parses by recursion) stay short. The
/// parser backtracks over
/// a nested subgraph, doubling its work (and deepening its recursion) at each
/// level of braces, so the number of opening braces is bounded too. Like
/// every petgraph graph, the result's edges join existing nodes.
#[verifier::external_body]
pub(crate) fn graph_from_dot(text: &str) -> (r: Result<DiGraph<String, ()>, DotParsingError>)
    requires
        dot_text_ok(text@),
    ensures
        match r {
            Ok(g) => {
                &&& dot_graph(text@) == Some(
                    (graph_nodes(g).to_set(), edge_names(graph_nodes(g), graph_edges(g))),
                )
                &&& graph_nodes(g).no_duplicates()
                &&& graph_nodes(g).len() <= u32::MAX
                &&& graph_edges(g).len() <= u32::MAX
                &&& forall|i: int|
                    0 <= i < graph_edges(g).len() ==> (#[trigger] graph_edges(g)[i]).0 < graph_nodes(g).len()
                        && graph_edges(g)[i].1 < graph_nodes(g).len()
            },
            Err(_) => dot_graph(text@) is None,
        },
{
    let parsed = <petgraph::Graph<_, _, _, _> as ParseFromDot>::try_from(text)?;
    Ok(parsed.map(|_, node| String::from(node.id.clone()), |_, _| ()))
}

/// The node weights of a graph, by node index.
pub uninterp spec fn graph_nodes(g: DiGraph<String, ()>) -> Seq<Seq<char>>;

/// The edges of a graph as (source, target) node indices, by edge index.
pub uninterp spec fn graph_edges(g: DiGraph<String, ()>) -> Seq<(usize, usize)>;

/// Relies on `Graph::new`: a graph with no nodes and no edges.
#[verifier::external_body]
pub(crate) fn graph_new() -> (g: DiGraph<String, ()>)
    ensures
        graph_nodes(g) == Seq::<Seq<char>>::empty(),
        graph_edges(g) == Seq::<(usize, usize)>::empty(),
{
    DiGraph::new()
}

/// Relies on `Graph::add_node`: the weight is appended and its index returned;
/// it panics only when the `u32` index space is full.
#[verifier::external_body]
pub(crate) fn graph_add_node(g: &mut DiGraph<String, ()>, w: String) -> (i: usize)
    requires
        graph_nodes(*old(g)).len() < u32::MAX,
    ensures
        graph_nodes(*final(g)) == graph_nodes(*old(g)).push(w@),
        graph_edges(*final(g)) == graph_edges(*old(g)),
        i == graph_nodes(*old(g)).len(),
{
    g.add_node(w).index()
}

/// Relies on `Graph::add_edge`: the edge `(a, b)` is appended to the edge list;
/// it panics when an endpoint is missing or the `u32` index space is full.
#[verifier::external_body]
pub(crate) fn graph_add_edge(g: &mut DiGraph<String, ()>, a: usize, b: usize)
    requires
        a < graph_nodes(*old(g)).len(),
        b < graph_nodes(*old(g)).len(),
        graph_nodes(*old(g)).len() < u32::MAX,
        graph_edges(*old(g)).len() < u32::MAX,
    ensures
        graph_nodes(*final(g)) == graph_nodes(*old(g)),
        graph_edges(*final(g)) == graph_edges(*old(g)).push((a, b)),
{
    g.add_edge(NodeIndex::new(a), NodeIndex::new(b), ());
}

/// Relies on `Graph::find_edge`: the index of an edge from `a` to `b`, or
/// `None` when there is no such edge.
#[verifier::external_body]
pub(crate) fn graph_find_edge(g: &DiGraph<String, ()>, a: usize, b: usize) -> (r: Option<usize>)
    requires
        a < graph_nodes(*g).len(),
        b < graph_nodes(*g).len(),
        graph_nodes(*g).len() <= u32::MAX,
    ensures
        match r {
            Some(e) => e < graph_edges(*g).len() && graph_edges(*g)[e as int] == (a, b),
            None => !graph_edges(*g).contains((a, b)),
        },
{
    match g.find_edge(NodeIndex::new(a), NodeIndex::new(b)) {
        Some(e) => Some(e.index()),
        None => None,
    }
}

/// Relies on `Graph::remove_edge`: the last edge takes the place of the
/// removed one (a swap-remove of the edge list); the nodes stay.
#[verifier::external_body]
pub(crate) fn graph_remove_edge(g: &mut DiGraph<String, ()>, e: usize)
    requires
        e < graph_edges(*old(g)).len(),
        graph_edges(*old(g)).len() <= u32::MAX,
    ensures
        graph_nodes(*final(g)) == graph_nodes(*old(g)),
        graph_edges(*final(g)) == swap_removed(graph_edges(*old(g)), e as int),
{
    g.remove_edge(EdgeIndex::new(e));
}

/// Relies on `Graph::node_count`: the number of nodes.
#[verifier::external_body]
pub(crate) fn graph_node_count(g: &DiGraph<String, ()>) -> (r: usize)
    ensures
        r == graph_nodes(*g).len(),
{
    g.node_count()
}

/// Relies on `Graph::neighbors_undirected`: the other end of every edge from
/// or to `a` (a node may be listed more than once).
#[verifier::external_body]
pub(crate) fn graph_neighbors_undirected(g: &DiGraph<String, ()>, a: usize) -> (r: Vec<usize>)
    requires
        a < graph_nodes(*g).len(),
        graph_nodes(*g).len() <= u32::MAX,
    ensures
        forall|k: int| 0 <= k < r@.len() ==> #[trigger] r@[k] < graph_nodes(*g).len(),
        forall|v: usize|
            #[trigger] r@.contains(v) <==> (graph_edges(*g).contains((a, v)) || graph_edges(*g).contains(
                (v, a),
            )),
{
    g.neighbors_undirected(NodeIndex::new(a)).map(|i| i.index()).collect()
}

/// Relies on `Graph::neighbors_directed` with `Incoming`: the source of every
/// edge into `a` (a node may be listed more than once).
#[verifier::external_body]
pub(crate) fn graph_neighbors_incoming(g: &DiGraph<String, ()>, a: usize) -> (r: Vec<usize>)
    requires
        a < graph_nodes(*g).len(),
        graph_nodes(*g).len() <= u32::MAX,
    ensures
        forall|k: int| 0 <= k < r@.len() ==> #[trigger] r@[k] < graph_nodes(*g).len(),
        forall|v: usize| #[trigger] r@.contains(v) <==> graph_edges(*g).contains((v, a)),
{
    g.neighbors_directed(NodeIndex::new(a), Direction::Incoming).map(|i| i.index()).collect()
}

/// A table of `n` flags marking the entries of `list`.
pub(crate) fn marks_of(list: &Vec<usize>, n: usize) -> (r: Vec<bool>)
    requires
        forall|k: int| 0 <= k < list@.len() ==> #[trigger] list@[k] < n,
    ensures
        r@.len() == n,
        forall|v: int| 0 <= v < n ==> (r@[v] <==> list@.contains(v as usize)),
{
    let mut r: Vec<bool> = Vec::new();
    let mut i: usize = 0;
    while i < n
        invariant
            0 <= i <= n,
            r@.len() == i,
            forall|v: int| 0 <= v < i ==> !r@[v],
        decreases n - i,
    {
        r.push(false);
        i += 1;
    }
    let mut k: usize = 0;
    while k < list.len()
        invariant
            forall|j: int| 0 <= j < list@.len() ==> #[trigger] list@[j] < n,
            0 <= k <= list.len(),
            r@.len() == n,
            forall|v: int| 0 <= v < n ==> (r@[v] <==> list@.subrange(0, k as int).contains(v as usize)),
        decreases list.len() - k,
    {
        let w = list[k];
        r.set(w, true);
        assert forall|v: int| 0 <= v < n implies (r@[v] <==> list@.subrange(0, k + 1).contains(v as usize)) by {
            let p = list@.subrange(0, k as int);
            let q = list@.subrange(0, k + 1);
            if p.contains(v as usize) {
                let j = choose|j: int| 0 <= j < p.len() && p[j] == v as usize;
                assert(q[j] == v as usize);
            }
            if q.contains(v as usize) {
                let j = choose|j: int| 0 <= j < q.len() && q[j] == v as usize;
                if j < k {
                    assert(p[j] == v as usize);
                }
            }
            if v == w as int {
                assert(q[k as int] == w);
            }
        }
        k += 1;
    }
    assert(list@.subrange(0, list.len() as int) =~= list@);
    r
}

/// Relies on indexing a `Graph` by a node index: the weight of that node.
#[verifier::external_body]
pub(crate) fn graph_node_weight(g: &DiGraph<String, ()>, a: usize) -> (r: &String)
    requires
        a < graph_nodes(*g).len(),
        graph_nodes(*g).len() <= u32::MAX,
    ensures
        r@ == graph_nodes(*g)[a as int],
{
    &g[NodeIndex::new(a)]
}

/// `order` lists every node once, each edge's source before its target.
pub open spec fn is_topological_order(n: nat, es: Seq<(usize, usize)>, order: Seq<usize>) -> bool {
    &&& order.len() == n
    &&& order.no_duplicates()
    &&& forall|k: int| 0 <= k < order.len() ==> #[trigger] order[k] < n
    &&& forall|i: int, p: int, q: int|
        #![trigger es[i], order[p], order[q]]
        0 <= i < es.len() && 0 <= p < order.len() && 0 <= q < order.len() && order[p] == es[i].0
            && order[q] == es[i].1 ==> p < q
}

/// Relies on `petgraph::algo::toposort`: on an acyclic graph every node in an
/// order where each node comes before its successors; `Err` when the graph has
/// a cycle (a self loop included), that is when no such order exists.
#[verifier::external_body]
pub(crate) fn graph_toposort(g: &DiGraph<String, ()>) -> (r: Option<Vec<usize>>)
    ensures
        match r {
            Some(o) => is_topological_order(graph_nodes(*g).len(), graph_edges(*g), o@),
            None => forall|o: Seq<usize>|
                !is_topological_order(graph_nodes(*g).len(), graph_edges(*g), o),
        },
{
    match toposort(g, None) {
        Ok(order) => Some(order.into_iter().map(|i| i.index()).collect()),
        Err(_) => None,
    }
}

/// A variable is named by a string; its node carries that name.
pub type Variable = String;

/// A directed graph whose nodes carry variable names.
pub struct DAG {
    pub graph: DiGraph<Variable, ()>,
}

/// `i` is the first position of `x` in `s`.
pub open spec fn is_first_index(s: Seq<Seq<char>>, x: Seq<char>, i: int) -> bool {
    &&& 0 <= i < s.len()
    &&& s[i] == x
    &&& forall|j: int| 0 <= j < i ==> s[j] != x
}

/// The sources of edges into `v` among the nodes below `k`, in index order.
pub open spec fn parents_below(es: Seq<(usize, usize)>, v: usize, k: nat) -> Seq<usize>
    decreases k,
{
    if k == 0 {
        Seq::<usize>::empty()
    } else {
        let rest = parents_below(es, v, (k - 1) as nat);
        if es.contains(((k - 1) as usize, v)) {
            rest.push((k - 1) as usize)
        } else {
            rest
        }
    }
}

/// The names of a list of nodes.
pub open spec fn names_of(names: Seq<Seq<char>>, ix: Seq<usize>) -> Seq<Seq<char>> {
    ix.map_values(|i: usize| names[i as int])
}

/// The views of a list of strings.
pub open spec fn strings_view(v: Seq<String>) -> Seq<Seq<char>> {
    v.map_values(|s: String| s@)
}

impl DAG {
    /// The names of the nodes, by node index.
    pub open spec fn nodes(&self) -> Seq<Seq<char>> {
        graph_nodes(self.graph)
    }

    /// The edges, by edge index.
    pub open spec fn edges(&self) -> Seq<(usize, usize)> {
        graph_edges(self.graph)
    }

    /// The graph fits petgraph's `u32` indices and every edge joins two nodes.
    pub open spec fn wf(&self) -> bool {
        &&& self.nodes().len() <= u32::MAX
        &&& self.edges().len() <= u32::MAX
        &&& forall|i: int|
            0 <= i < self.edges().len() ==> (#[trigger] self.edges()[i]).0 < self.nodes().len()
                && self.edges()[i].1 < self.nodes().len()
    }

    /// The graph that a DOT text describes, each node named by its DOT id.
    pub fn from_dot(text: &str) -> (r: Result<DAG, DotParsingError>)
        requires
            dot_text_ok(text@),
        ensures
            match r {
                Ok(d) => {
                    &&& d.wf()
                    &&& d.nodes().no_duplicates()
                    &&& dot_graph(text@) == Some((d.nodes().to_set(), edge_names(d.nodes(), d.edges())))
                },
                Err(_) => dot_graph(text@) is None,
            },
    {
        match graph_from_dot(text) {
            Ok(graph) => Ok(DAG { graph }),
            Err(e) => Err(e),
        }
    }

    /// An empty graph.
    pub fn new() -> (r: DAG)
        ensures
            r.wf(),
            r.nodes() == Seq::<Seq<char>>::empty(),
            r.edges() == Seq::<(usize, usize)>::empty(),
    {
        DAG { graph: graph_new() }
    }

    /// The number of nodes.
    pub fn node_count(&self) -> (r: usize)
        ensures
            r == self.nodes().len(),
    {
        graph_node_count(&self.graph)
    }

    /// Whether there is an edge from node `u` to node `v`.
    pub fn has_edge(&self, u: usize, v: usize) -> (r: bool)
        requires
            self.wf(),
            u < self.nodes().len(),
            v < self.nodes().len(),
        ensures
            r == self.edges().contains((u, v)),
    {
        match graph_find_edge(&self.graph, u, v) {
            Some(e) => {
                assert(self.edges()[e as int] == (u, v));
                true
            },
            None => false,
        }
    }

    /// The name of node `i`.
    pub fn name(&self, i: usize) -> (r: &Variable)
        requires
            self.wf(),
            i < self.nodes().len(),
        ensures
            r@ == self.nodes()[i as int],
    {
        graph_node_weight(&self.graph, i)
    }

    /// Adds a node named `name`, also when one of that name exists.
    pub fn add_node(&mut self, name: Variable)
        requires
            old(self).wf(),
            old(self).nodes().len() < u32::MAX,
        ensures
            final(self).wf(),
            final(self).nodes() == old(self).nodes().push(name@),
            final(self).edges() == old(self).edges(),
    {
        graph_add_node(&mut self.graph, name);
    }

    /// The index of the first node named `variable`, if any.
    pub fn get_index(&self, variable: &Variable) -> (r: Option<usize>)
        requires
            self.wf(),
        ensures
            match r {
                Some(i) => is_first_index(self.nodes(), variable@, i as int),
                None => !self.nodes().contains(variable@),
            },
    {
        let n = self.node_count();
        let mut i: usize = 0;
        while i < n
            invariant
                self.wf(),
                n == self.nodes().len(),
                0 <= i <= n,
                forall|j: int| 0 <= j < i ==> self.nodes()[j] != variable@,
            decreases n - i,
        {
            if *self.name(i) == *variable {
                return Some(i);
            }
            i += 1;
        }
        None
    }

    /// Adds a node named `name` unless one of that name exists.
    pub fn node(self, name: &str) -> (r: Self)
        requires
            self.wf(),
            self.nodes().len() < u32::MAX,
        ensures
            r.wf(),
            r.edges() == self.edges(),
            r.nodes() == if self.nodes().contains(name@) {
                self.nodes()
            } else {
                self.nodes().push(name@)
            },
    {
        let mut g = self;
        let owned = name.to_owned();
        if g.get_index(&owned).is_none() {
            g.add_node(owned);
        }
        g
    }

    /// Adds an edge between the first nodes named `from` and `to`.
    pub fn edge(self, from: &str, to: &str) -> (r: Self)
        requires
            self.wf(),
            self.nodes().contains(from@),
            self.nodes().contains(to@),
            self.nodes().len() < u32::MAX,
            self.edges().len() < u32::MAX,
        ensures
            r.wf(),
            r.nodes() == self.nodes(),
            exists|a: int, b: int|
                is_first_index(self.nodes(), from@, a) && is_first_index(self.nodes(), to@, b)
                    && r.edges() == self.edges().push((a as usize, b as usize)),
    {
        let mut g = self;
        let a = g.get_index(&from.to_owned()).unwrap();
        let b = g.get_index(&to.to_owned()).unwrap();
        graph_add_edge(&mut g.graph, a, b);
        assert(is_first_index(self.nodes(), from@, a as int));
        g
    }

    /// The names of all nodes, by node index.
    pub fn variables(&self) -> (r: Vec<Variable>)
        requires
            self.wf(),
        ensures
            strings_view(r@) == self.nodes(),
    {
        let n = self.node_count();
        let mut r: Vec<Variable> = Vec::new();
        let mut i: usize = 0;
        while i < n
            invariant
                self.wf(),
                n == self.nodes().len(),
                0 <= i <= n,
                strings_view(r@) =~= self.nodes().subrange(0, i as int),
            decreases n - i,
        {
            let ghost before = r@;
            let s = self.name(i).clone();
            r.push(s);
            assert(strings_view(r@) =~= strings_view(before).push(s@));
            i += 1;
        }
        assert(self.nodes().subrange(0, n as int) =~= self.nodes());
        r
    }

    /// The node names in topological order (each node before its successors);
    /// the sort fails when the graph has a cycle.
    pub fn sort(&self) -> (r: Result<Vec<Variable>, CausalError>)
        requires
            self.wf(),
        ensures
            match r {
                Ok(v) => exists|o: Seq<usize>|
                    is_topological_order(self.nodes().len(), self.edges(), o) && strings_view(v@)
                        == names_of(self.nodes(), o),
                Err(e) => e == CausalError::TopologicalSortFailed && forall|o: Seq<usize>|
                    !is_topological_order(self.nodes().len(), self.edges(), o),
            },
    {
        match graph_toposort(&self.graph) {
            Some(order) => {
                let ghost o = order@;
                let mut r: Vec<Variable> = Vec::new();
                let mut k: usize = 0;
                while k < order.len()
                    invariant
                        self.wf(),
                        o == order@,
                        is_topological_order(self.nodes().len(), self.edges(), o),
                        0 <= k <= order.len(),
                        strings_view(r@) =~= names_of(self.nodes(), o.subrange(0, k as int)),
                    decreases order.len() - k,
                {
                    let ghost before = r@;
                    assert(order@[k as int] < self.nodes().len());
                    let s = self.name(order[k]).clone();
                    r.push(s);
                    assert(strings_view(r@) =~= strings_view(before).push(s@));
                    assert(o.subrange(0, k + 1) =~= o.subrange(0, k as int).push(o[k as int]));
                    k += 1;
                }
                assert(o.subrange(0, order.len() as int) =~= o);
                Ok(r)
            },
            None => Err(CausalError::TopologicalSortFailed),
        }
    }

    /// The names of the nodes with an edge into the first node named `node`,
    /// in index order.
    pub fn get_parents(&self, node: &Variable) -> (r: Vec<Variable>)
        requires
            self.wf(),
            self.nodes().contains(node@),
        ensures
            exists|v: int|
                is_first_index(self.nodes(), node@, v) && strings_view(r@) == names_of(
                    self.nodes(),
                    parents_below(self.edges(), v as usize, self.nodes().len()),
                ),
    {
        let v = self.get_index(node).unwrap();
        let n = self.node_count();
        let incoming = graph_neighbors_incoming(&self.graph, v);
        let marks = marks_of(&incoming, n);
        let mut r: Vec<Variable> = Vec::new();
        let mut i: usize = 0;
        while i < n
            invariant
                self.wf(),
                n == self.nodes().len(),
                v < n,
                0 <= i <= n,
                marks@.len() == n,
                forall|u: int| 0 <= u < n ==> (marks@[u] <==> self.edges().contains((u as usize, v))),
                strings_view(r@) =~= names_of(self.nodes(), parents_below(self.edges(), v, i as nat)),
            decreases n - i,
        {
            let ghost before = r@;
            if marks[i] {
                let s = self.name(i).clone();
                r.push(s);
                assert(strings_view(r@) =~= strings_view(before).push(s@));
            }
            i += 1;
        }
        r
    }
}

/// The sequence `s` after a swap-remove at `i`: the last element moves to `i`.
pub open spec fn swap_removed<A>(s: Seq<A>, i: int) -> Seq<A> {
    if i == s.len() - 1 {
        s.drop_last()
    } else {
        s.drop_last().update(i, s.last())
    }
}

} // verus!
