//! The PC search on a graph of named variables: skeleton learning, collider
//! orientation and propagation of directions.
use crate::combinations::{
    get_combinations, increasing, lemma_combos_increasing, lemma_combos_members, lemma_combos_too_few, lists_view,
};
use crate::dag::{
    graph_add_edge, graph_find_edge, graph_neighbors_undirected, graph_remove_edge, marks_of, names_of, strings_view, swap_removed,
    Variable, DAG,
};
use crate::error::CausalError;
use crate::model::{
    adjacent, adjacent_below, candidates, colliders, cut, cut_pair, deterministic, directed,
    directed_parents_below, edges_below, first_independent, is_first_rule,
    lemma_adjacent_below, lemma_adjacent_below_increasing, lemma_first_rule_unique, lemma_name_less_asym,
    lemma_orient_keeps_adjacency, lex_before, max_degree_below, name_less, neighbors,
    node_triples, oracle_query, orient, orient_triples, out_edges, pc_search, propagate, round_edges,
    round_seps, row_triples, rule_applies, rule_somewhere, sep_holds, skeleton, tested,
    triples_below, undirected, verdict, verdict_of, witness, EdgeSet, SepTable, Verdict,
};
use vstd::prelude::*;

verus! {

/// Removing position `i` of a duplicate-free sequence by a swap-remove drops
/// exactly that element.
pub proof fn lemma_swap_removed<A>(s: Seq<A>, i: int)
    requires
        s.no_duplicates(),
        0 <= i < s.len(),
    ensures
        swap_removed(s, i).no_duplicates(),
        swap_removed(s, i).len() == s.len() - 1,
        swap_removed(s, i).to_set() == s.to_set().remove(s[i]),
        forall|j: int|
            0 <= j < swap_removed(s, i).len() ==> s.contains(#[trigger] swap_removed(s, i)[j]),
{
    let r = swap_removed(s, i);
    assert forall|j: int| 0 <= j < r.len() implies s.contains(#[trigger] r[j]) by {
        if j == i {
            assert(r[j] == s[s.len() - 1]);
        } else {
            assert(r[j] == s[j]);
        }
    }
    assert forall|x: A| r.to_set().contains(x) <==> s.to_set().remove(s[i]).contains(x) by {
        if r.contains(x) {
            let j = choose|j: int| 0 <= j < r.len() && r[j] == x;
            if j == i {
                assert(r[j] == s[s.len() - 1]);
                assert(s.len() - 1 != i);
            } else {
                assert(r[j] == s[j]);
            }
        }
        if s.contains(x) && x != s[i] {
            let j = choose|j: int| 0 <= j < s.len() && s[j] == x;
            if j == s.len() - 1 {
                assert(r[i] == x);
            } else {
                assert(r[j] == x);
            }
        }
    }
    assert(r.to_set() =~= s.to_set().remove(s[i]));
}

/// Pushing an element absent from a duplicate-free sequence keeps it so.
pub proof fn lemma_push_fresh<A>(s: Seq<A>, x: A)
    requires
        s.no_duplicates(),
        !s.contains(x),
    ensures
        s.push(x).no_duplicates(),
        s.push(x).to_set() == s.to_set().insert(x),
{
    let r = s.push(x);
    assert forall|i: int, j: int| 0 <= i < r.len() && 0 <= j < r.len() && i != j implies r[i] != r[j] by {
        if i == s.len() {
            assert(s[j] == r[j]);
        } else if j == s.len() {
            assert(s[i] == r[i]);
        }
    }
    assert forall|y: A| r.to_set().contains(y) <==> s.to_set().insert(x).contains(y) by {
        if r.contains(y) {
            let j = choose|j: int| 0 <= j < r.len() && r[j] == y;
            if j < s.len() {
                assert(s[j] == y);
            }
        }
        if s.contains(y) {
            let j = choose|j: int| 0 <= j < s.len() && s[j] == y;
            assert(r[j] == y);
        }
        if y == x {
            assert(r[s.len() as int] == y);
        }
    }
    assert(r.to_set() =~= s.to_set().insert(x));
}

/// `t = (x, y, z)` has `x` and `z` adjacent to `y` and distinct from it.
pub open spec fn good_triple(es: EdgeSet, n: nat, t: (usize, usize, usize)) -> bool {
    &&& t.0 < n && t.1 < n && t.2 < n
    &&& t.0 != t.1 && t.2 != t.1
    &&& adjacent(es, t.0, t.1) && adjacent(es, t.2, t.1)
}

/// A finite set of pairs of nodes below `n` has at most `n * n` members.
pub proof fn lemma_edge_bound(es: EdgeSet, n: nat)
    requires
        es.finite(),
        forall|e: (usize, usize)| #[trigger] es.contains(e) ==> e.0 < n && e.1 < n,
    ensures
        es.len() <= n * n,
{
    let f = |e: (usize, usize)| (e.0 as int) * (n as int) + (e.1 as int);
    assert forall|a: (usize, usize), b: (usize, usize)|
        es.contains(a) && es.contains(b) && #[trigger] f(a) == #[trigger] f(b) implies a == b by {
        let (u1, v1) = (a.0 as int, a.1 as int);
        let (u2, v2) = (b.0 as int, b.1 as int);
        let m = n as int;
        if u1 < u2 {
            assert(u1 * m + v1 < u2 * m + v2) by (nonlinear_arith)
                requires
                    u1 < u2,
                    0 <= v1 < m,
                    0 <= v2,
            ;
        } else if u2 < u1 {
            assert(u2 * m + v2 < u1 * m + v1) by (nonlinear_arith)
                requires
                    u2 < u1,
                    0 <= v2 < m,
                    0 <= v1,
            ;
        }
    }
    let img = es.map(f);
    vstd::set_lib::lemma_map_size(es, img, f);
    assert forall|i: int| img.contains(i) implies vstd::set_lib::set_int_range(0, (n * n) as int).contains(i) by {
        let e = choose|e: (usize, usize)| es.contains(e) && f(e) == i;
        let (u, v, m) = (e.0 as int, e.1 as int, n as int);
        assert(0 <= u * m + v < m * m) by (nonlinear_arith)
            requires
                0 <= u < m,
                0 <= v < m,
        ;
    }
    vstd::set_lib::lemma_int_range(0, (n * n) as int);
    vstd::set_lib::lemma_len_subset(img, vstd::set_lib::set_int_range(0, (n * n) as int));
}

/// Subsets compose.
proof fn lemma_subset_trans(a: EdgeSet, b: EdgeSet, c: EdgeSet)
    requires
        a.subset_of(b),
        b.subset_of(c),
    ensures
        a.subset_of(c),
{
}

/// Whether `a` sorts strictly before `b`, character by character.
pub fn names_in_order(a: &String, b: &String) -> (r: bool)
    ensures
        r == name_less(a@, b@),
{
    let sa = a.as_str();
    let sb = b.as_str();
    let la = sa.unicode_len();
    let lb = sb.unicode_len();
    let mut i: usize = 0;
    assert(a@.subrange(0, a@.len() as int) =~= a@);
    assert(b@.subrange(0, b@.len() as int) =~= b@);
    while i < la && i < lb
        invariant
            sa@ == a@,
            sb@ == b@,
            la == a@.len(),
            lb == b@.len(),
            0 <= i <= la,
            i <= lb,
            name_less(a@, b@) == name_less(
                a@.subrange(i as int, a@.len() as int),
                b@.subrange(i as int, b@.len() as int),
            ),
        decreases la - i,
    {
        let ca = sa.get_char(i);
        let cb = sb.get_char(i);
        let ghost ra = a@.subrange(i as int, a@.len() as int);
        let ghost rb = b@.subrange(i as int, b@.len() as int);
        assert(ra[0] == ca && rb[0] == cb);
        if ca != cb {
            return (ca as u32) < (cb as u32);
        }
        assert(ra.drop_first() =~= a@.subrange(i + 1, a@.len() as int));
        assert(rb.drop_first() =~= b@.subrange(i + 1, b@.len() as int));
        i += 1;
    }
    let ghost ra = a@.subrange(i as int, a@.len() as int);
    let ghost rb = b@.subrange(i as int, b@.len() as int);
    assert(i == la ==> ra.len() == 0);
    assert(i == lb ==> rb.len() == 0);
    i == la && i < lb
}

/// A copy of a list of node indices.
fn copy_list(v: &Vec<usize>) -> (r: Vec<usize>)
    ensures
        r@ == v@,
{
    let mut r: Vec<usize> = Vec::new();
    let mut i: usize = 0;
    while i < v.len()
        invariant
            0 <= i <= v.len(),
            r@ =~= v@.subrange(0, i as int),
        decreases v.len() - i,
    {
        r.push(v[i]);
        i += 1;
    }
    assert(v@.subrange(0, v.len() as int) =~= v@);
    r
}

/// `z` is a conditioning set of `d` nodes, strictly increasing, drawn from
/// the neighbours of `x` other than `y` in `es`.
pub open spec fn drawn_from_neighbors(es: EdgeSet, n: nat, d: nat, x: usize, y: usize, z: Seq<usize>) -> bool {
    &&& z.len() == d
    &&& increasing(z)
    &&& forall|k: int| 0 <= k < z.len() ==> neighbors(es, n, x).contains(#[trigger] z[k]) && z[k] != y
}

/// After a round at depth `d` from `before` to `after`, the pair `u`, `v` is no
/// longer adjacent and has a separating set drawn at that depth from the
/// neighbours, in `before`, of one of the two (other than the second).
pub open spec fn separated_in_round(
    before: EdgeSet,
    after: EdgeSet,
    seps: SepTable,
    n: nat,
    d: nat,
    u: usize,
    v: usize,
) -> bool {
    &&& !adjacent(after, u, v)
    &&& seps[u as int][v as int] is Some
    &&& (drawn_from_neighbors(before, n, d, u, v, seps[u as int][v as int]->0) || drawn_from_neighbors(
        before,
        n,
        d,
        v,
        u,
        seps[u as int][v as int]->0,
    ))
}

/// After skeleton learning from `start`, the pair `u`, `v` is no longer
/// adjacent and has a strictly increasing separating set drawn from the
/// neighbours, in `start`, of one of the two (other than the second).
pub open spec fn separated_from(start: EdgeSet, after: EdgeSet, seps: SepTable, n: nat, u: usize, v: usize) -> bool {
    &&& !adjacent(after, u, v)
    &&& seps[u as int][v as int] is Some
    &&& increasing(seps[u as int][v as int]->0)
    &&& ((forall|k: int|
        0 <= k < seps[u as int][v as int]->0.len() ==> neighbors(start, n, u).contains(
            #[trigger] seps[u as int][v as int]->0[k],
        ) && seps[u as int][v as int]->0[k] != v) || (forall|k: int|
        0 <= k < seps[u as int][v as int]->0.len() ==> neighbors(start, n, v).contains(
            #[trigger] seps[u as int][v as int]->0[k],
        ) && seps[u as int][v as int]->0[k] != u))
}

/// Neighbours in a subgraph are neighbours in the graph.
pub proof fn lemma_neighbors_shrink(small: EdgeSet, big: EdgeSet, n: nat, x: usize, w: usize)
    requires
        small.subset_of(big),
        neighbors(small, n, x).contains(w),
    ensures
        neighbors(big, n, x).contains(w),
{
    lemma_adjacent_below(small, x, x, n);
    lemma_adjacent_below(big, x, x, n);
}

/// Every pair listed in `rem` has the same drawn set stored both ways.
pub open spec fn rem_recorded(rem: Seq<(usize, usize)>, t: SepTable, es: EdgeSet, n: nat, d: nat) -> bool {
    forall|k: int|
        0 <= k < rem.len() ==> {
            let (a, b) = #[trigger] rem[k];
            &&& t[a as int][b as int] is Some
            &&& drawn_from_neighbors(es, n, d, a, b, t[a as int][b as int]->0)
            &&& t[b as int][a as int] == t[a as int][b as int]
        }
}

/// Every entry of `t` that differs from `t0` belongs to a pair listed in `rem`.
pub open spec fn changes_listed(rem: Seq<(usize, usize)>, t: SepTable, t0: SepTable, n: nat) -> bool {
    forall|u: usize, v: usize|
        u < n && v < n && #[trigger] t[u as int][v as int] != t0[u as int][v as int] ==> rem.contains((u, v))
            || rem.contains((v, u))
}

/// The pair `(u, v)` is visited before position `(x, y)` of the scan.
pub open spec fn scanned(u: usize, v: usize, x: usize, y: usize) -> bool {
    u < x || (u == x && v < y)
}

/// `rem` lists exactly the pairs visited before `(x, y)` that the round separates.
pub open spec fn rem_matches(
    rem: Seq<(usize, usize)>,
    names: Seq<Seq<char>>,
    es: EdgeSet,
    d: nat,
    indep: Verdict,
    x: usize,
    y: usize,
) -> bool {
    forall|u: usize, v: usize|
        u < names.len() && v < names.len() ==> (#[trigger] rem.contains((u, v)) <==> (scanned(u, v, x, y)
            && cut(names, es, d, indep, u, v)))
}

/// An edge loses both directions to a pair listed in `rem`.
pub open spec fn removed_by(rem: Seq<(usize, usize)>, e: (usize, usize)) -> bool {
    rem.contains(e) || rem.contains((e.1, e.0))
}

/// The separating sets once a round has visited the pairs before `(x, y)`.
pub open spec fn seps_partial(
    names: Seq<Seq<char>>,
    es: EdgeSet,
    seps: SepTable,
    d: nat,
    indep: Verdict,
    x: usize,
    y: usize,
) -> SepTable {
    Seq::new(
        seps.len(),
        |u: int|
            Seq::new(
                seps[u].len(),
                |v: int|
                    if scanned(u as usize, v as usize, x, y) && cut(names, es, d, indep, u as usize, v as usize) {
                        witness(es, names.len(), d, indep, u as usize, v as usize)
                    } else if scanned(v as usize, u as usize, x, y) && cut(
                        names,
                        es,
                        d,
                        indep,
                        v as usize,
                        u as usize,
                    ) {
                        witness(es, names.len(), d, indep, v as usize, u as usize)
                    } else {
                        seps[u][v]
                    },
            ),
    )
}

/// The exec view of a stored separating set.
pub open spec fn sep_view(o: Option<Vec<usize>>) -> Option<Seq<usize>> {
    match o {
        Some(v) => Some(v@),
        None => None,
    }
}

/// A table with no separating set recorded, for `n` nodes.
pub open spec fn empty_seps(n: nat) -> SepTable {
    Seq::new(n, |u: int| Seq::new(n, |v: int| None::<Seq<usize>>))
}

/// Every ordered pair of distinct nodes among `n`.
pub open spec fn complete_edges(n: nat) -> EdgeSet {
    Set::new(|e: (usize, usize)| e.0 < n && e.1 < n && e.0 != e.1)
}

/// The names are pairwise different.
pub open spec fn distinct_names(names: Seq<Seq<char>>) -> bool {
    forall|i: int, j: int| 0 <= i < names.len() && 0 <= j < names.len() && i != j ==> names[i] != names[j]
}

/// A square table over `n` nodes whose sets name nodes below `n`.
pub open spec fn table_wf(t: SepTable, n: nat) -> bool {
    &&& t.len() == n
    &&& forall|u: int| 0 <= u < n ==> (#[trigger] t[u]).len() == n
    &&& forall|u: int, v: int, k: int|
        0 <= u < n && 0 <= v < n && t[u][v] is Some && 0 <= k < t[u][v]->0.len() ==> #[trigger] t[u][v]->0[k] < n
}

/// The state of one PC search: the graph being pruned and oriented, and the
/// separating sets recorded for removed edges.
pub struct PC {
    graph: DAG,
    sepsets: Vec<Vec<Option<Vec<usize>>>>,
}

impl PC {
    /// The variable names, by node index.
    pub closed spec fn names(&self) -> Seq<Seq<char>> {
        self.graph.nodes()
    }

    /// The current edges as a set.
    pub closed spec fn edge_set(&self) -> EdgeSet {
        self.graph.edges().to_set()
    }

    /// The recorded separating sets.
    pub closed spec fn seps(&self) -> SepTable {
        Seq::new(
            self.sepsets@.len(),
            |u: int| Seq::new(self.sepsets@[u]@.len(), |v: int| sep_view(self.sepsets@[u]@[v])),
        )
    }

    /// Well-formedness: a simple directed graph over distinct names within
    /// petgraph's index range, and a square table of separating sets.
    pub closed spec fn wf(&self) -> bool {
        let n = self.names().len();
        &&& self.graph.wf()
        &&& n < u32::MAX
        &&& n * n < u32::MAX
        &&& self.graph.edges().len() <= n * n
        &&& self.graph.edges().no_duplicates()
        &&& forall|e: (usize, usize)| #[trigger]
            self.graph.edges().contains(e) ==> e.0 < n && e.1 < n && e.0 != e.1
        &&& distinct_names(self.names())
        &&& self.sepsets@.len() == n
        &&& forall|u: int| 0 <= u < n ==> (#[trigger] self.sepsets@[u])@.len() == n
        &&& table_wf(self.seps(), n)
    }

    /// The number of variables.
    pub open spec fn n(&self) -> nat {
        self.names().len()
    }

    /// The number of directed edges.
    pub closed spec fn edge_count(&self) -> nat {
        self.graph.edges().len()
    }

    /// What well-formedness gives a caller: distinct names, fewer than
    /// `u32::MAX` nodes, edges between two different nodes below `n` (at most
    /// `n * n` of them), and a square table of separating sets naming nodes
    /// below `n`.
    pub proof fn lemma_wf_facts(&self)
        requires
            self.wf(),
        ensures
            distinct_names(self.names()),
            self.n() < u32::MAX,
            self.edge_set().finite(),
            self.edge_set().len() <= self.n() * self.n(),
            forall|e: (usize, usize)|
                #[trigger] self.edge_set().contains(e) ==> e.0 < self.n() && e.1 < self.n() && e.0 != e.1,
            table_wf(self.seps(), self.n()),
    {
        self.lemma_edge_count();
        assert forall|e: (usize, usize)| #[trigger] self.edge_set().contains(e) implies e.0 < self.n()
            && e.1 < self.n() && e.0 != e.1 by {
            assert(self.graph.edges().contains(e));
        }
    }

    /// The edge set is finite and has `edge_count` members.
    pub proof fn lemma_edge_count(&self)
        requires
            self.wf(),
        ensures
            self.edge_set().finite(),
            self.edge_set().len() == self.edge_count(),
    {
        self.graph.edges().unique_seq_to_set();
        vstd::seq_lib::seq_to_set_is_finite(self.graph.edges());
    }

    /// Whether the edge `u → v` is present.
    fn has(&self, u: usize, v: usize) -> (r: bool)
        requires
            self.wf(),
            u < self.n(),
            v < self.n(),
        ensures
            r == self.edge_set().contains((u, v)),
    {
        self.graph.has_edge(u, v)
    }

    /// Whether `x` and `y` are joined in either direction.
    pub fn are_adjacent(&self, x: usize, y: usize) -> (r: bool)
        requires
            self.wf(),
            x < self.n(),
            y < self.n(),
        ensures
            r == adjacent(self.edge_set(), x, y),
    {
        self.has(x, y) || self.has(y, x)
    }

    /// The nodes adjacent to `x` other than `x` and `skip`, ascending.
    fn adjacent_except(&self, x: usize, skip: usize) -> (r: Vec<usize>)
        requires
            self.wf(),
            x < self.n(),
        ensures
            r@ == adjacent_below(self.edge_set(), x, skip, self.n()),
            r@.len() <= self.n(),
    {
        let n = self.graph.node_count();
        let around = graph_neighbors_undirected(&self.graph.graph, x);
        let marks = marks_of(&around, n);
        let mut r: Vec<usize> = Vec::new();
        let mut v: usize = 0;
        while v < n
            invariant
                self.wf(),
                n == self.n(),
                x < n,
                0 <= v <= n,
                marks@.len() == n,
                forall|u: int| 0 <= u < n ==> (marks@[u] <==> adjacent(self.edge_set(), x, u as usize)),
                r@ == adjacent_below(self.edge_set(), x, skip, v as nat),
                r@.len() <= v,
            decreases n - v,
        {
            if v != x && v != skip && marks[v] {
                r.push(v);
            }
            v += 1;
        }
        r
    }

    /// The neighbours of `x` (edges in either direction), ascending.
    pub fn get_neighbors(&self, x: usize) -> (r: Vec<usize>)
        requires
            self.wf(),
            x < self.n(),
        ensures
            r@ == neighbors(self.edge_set(), self.n(), x),
    {
        self.adjacent_except(x, x)
    }

    /// The number of neighbours of `x`.
    pub fn get_degree(&self, x: usize) -> (r: usize)
        requires
            self.wf(),
            x < self.n(),
        ensures
            r == neighbors(self.edge_set(), self.n(), x).len(),
            r <= self.n(),
    {
        self.adjacent_except(x, x).len()
    }

    /// The nodes `y` with `x – y` undirected, ascending.
    pub fn get_undirected_neighbors(&self, x: usize) -> (r: Vec<usize>)
        requires
            self.wf(),
            x < self.n(),
        ensures
            increasing(r@),
            forall|k: int| 0 <= k < r@.len() ==> #[trigger] r@[k] < self.n(),
            forall|y: usize| y < self.n() ==> (r@.contains(y) <==> undirected(self.edge_set(), x, y)),
    {
        let n = self.graph.node_count();
        let mut r: Vec<usize> = Vec::new();
        let mut v: usize = 0;
        while v < n
            invariant
                self.wf(),
                n == self.n(),
                x < n,
                0 <= v <= n,
                increasing(r@),
                forall|k: int| 0 <= k < r@.len() ==> #[trigger] r@[k] < v,
                forall|y: usize| y < v ==> (r@.contains(y) <==> undirected(self.edge_set(), x, y)),
            decreases n - v,
        {
            let ghost before = r@;
            if self.has(x, v) && self.has(v, x) {
                r.push(v);
                assert(r@[before.len() as int] == v);
            }
            assert forall|y: usize| y < v + 1 implies (r@.contains(y) <==> undirected(
                self.edge_set(),
                x,
                y,
            )) by {
                if r@.contains(y) && y != v {
                    let k = choose|k: int| 0 <= k < r@.len() && r@[k] == y;
                    assert(before[k] == y);
                }
                if y < v && before.contains(y) {
                    let k = choose|k: int| 0 <= k < before.len() && before[k] == y;
                    assert(r@[k] == y);
                }
            }
            v += 1;
        }
        r
    }

    /// Removes the edge `u → v` if present.
    fn remove_directed(&mut self, u: usize, v: usize)
        requires
            old(self).wf(),
            u < old(self).n(),
            v < old(self).n(),
        ensures
            final(self).wf(),
            final(self).names() == old(self).names(),
            final(self).seps() == old(self).seps(),
            final(self).edge_set() == old(self).edge_set().remove((u, v)),
            final(self).edge_count() == old(self).edge_count() - (if old(
                self,
            ).edge_set().contains((u, v)) {
                1int
            } else {
                0int
            }),
    {
        match graph_find_edge(&self.graph.graph, u, v) {
            Some(e) => {
                let ghost s = self.graph.edges();
                proof {
                    lemma_swap_removed(s, e as int);
                }
                graph_remove_edge(&mut self.graph.graph, e);
                let ghost r = self.graph.edges();
                assert forall|e2: (usize, usize)| #[trigger] r.contains(e2) implies s.contains(e2) by {
                    let j = choose|j: int| 0 <= j < r.len() && r[j] == e2;
                    assert(s.contains(r[j]));
                }
                assert forall|i: int| 0 <= i < r.len() implies (#[trigger] r[i]).0 < self.n() && r[i].1
                    < self.n() by {
                    assert(r.contains(r[i]));
                }
                assert(self.edge_set() =~= old(self).edge_set().remove((u, v)));
            },
            None => {
                assert(self.edge_set() =~= old(self).edge_set().remove((u, v)));
            },
        }
    }

    /// Removes both directions between `u` and `v`.
    pub fn remove_undirected_edge(&mut self, u: usize, v: usize)
        requires
            old(self).wf(),
            u < old(self).n(),
            v < old(self).n(),
        ensures
            final(self).wf(),
            final(self).names() == old(self).names(),
            final(self).seps() == old(self).seps(),
            final(self).edge_set() == old(self).edge_set().remove((u, v)).remove((v, u)),
    {
        self.remove_directed(u, v);
        self.remove_directed(v, u);
    }

    /// Forces `x → y`: removes `y → x` if present and adds `x → y` if absent.
    pub fn orient_directed(&mut self, x: usize, y: usize)
        requires
            old(self).wf(),
            x < old(self).n(),
            y < old(self).n(),
            x != y,
        ensures
            final(self).wf(),
            final(self).names() == old(self).names(),
            final(self).seps() == old(self).seps(),
            final(self).edge_set() == orient(old(self).edge_set(), x, y),
            final(self).edge_count() == old(self).edge_count() - (if old(self).edge_set().contains(
                (y, x),
            ) {
                1int
            } else {
                0int
            }) + (if old(self).edge_set().contains((x, y)) {
                0int
            } else {
                1int
            }),
    {
        self.remove_directed(y, x);
        let ghost mid = self.graph.edges();
        if !self.has(x, y) {
            assert(mid.len() <= old(self).graph.edges().len());
            proof {
                lemma_push_fresh(self.graph.edges(), (x, y));
            }
            graph_add_edge(&mut self.graph.graph, x, y);
            assert forall|i: int| 0 <= i < self.graph.edges().len() implies (#[trigger] self.graph.edges()[i]).0
                < self.n() && self.graph.edges()[i].1 < self.n() by {
                if i < self.graph.edges().len() - 1 {
                    assert(self.graph.edges()[i] == mid[i]);
                    assert(mid.contains(mid[i]));
                }
            }
        }
        assert(self.edge_set() =~= orient(old(self).edge_set(), x, y));
        assert forall|e: (usize, usize)| #[trigger]
            self.graph.edges().contains(e) implies e.0 < self.n() && e.1 < self.n() && e.0 != e.1 by {
            assert(self.edge_set().contains(e));
            if e != (x, y) {
                assert(mid.to_set().contains(e));
            }
        }
        proof {
            self.graph.edges().unique_seq_to_set();
            vstd::seq_lib::seq_to_set_is_finite(self.graph.edges());
            assert forall|e: (usize, usize)| #[trigger] self.edge_set().contains(e) implies e.0 < self.n()
                && e.1 < self.n() by {
                assert(self.graph.edges().contains(e));
            }
            lemma_edge_bound(self.edge_set(), self.n());
        }
    }

    /// Records `z` as the separating set stored at `(u, v)`.
    fn set_sep(&mut self, u: usize, v: usize, z: Vec<usize>)
        requires
            old(self).wf(),
            u < old(self).n(),
            v < old(self).n(),
            forall|k: int| 0 <= k < z@.len() ==> #[trigger] z@[k] < old(self).n(),
        ensures
            final(self).wf(),
            final(self).names() == old(self).names(),
            final(self).graph == old(self).graph,
            final(self).seps() == old(self).seps().update(
                u as int,
                old(self).seps()[u as int].update(v as int, Some(z@)),
            ),
    {
        let ghost zv = z@;
        self.sepsets[u].set(v, Some(z));
        assert(self.seps() =~~= old(self).seps().update(
            u as int,
            old(self).seps()[u as int].update(v as int, Some(zv)),
        ));
    }

    /// Searches the conditioning sets of size `depth` for the pair `(x, y)`:
    /// the position of the first one the oracle calls independent, if any.
    fn find_separator<F: Fn(usize, usize, &Vec<usize>) -> bool>(
        cands: &Vec<Vec<usize>>,
        x: usize,
        y: usize,
        is_independent: &F,
    ) -> (r: Option<usize>)
        requires
            forall|j: int| 0 <= j < cands.len() ==> #[trigger] is_independent.requires((x, y, &cands[j])),
        ensures
            match r {
                Some(j) => j < cands.len() && verdict(*is_independent, x, y, cands@[j as int]@),
                None => true,
            },
            deterministic(*is_independent) ==> first_independent(
                lists_view(cands@),
                0,
                x,
                y,
                verdict_of(*is_independent),
            ) == match r {
                Some(j) => Some(cands@[j as int]@),
                None => None::<Seq<usize>>,
            },
    {
        let ghost cv = lists_view(cands@);
        let ghost vf = verdict_of(*is_independent);
        let mut j: usize = 0;
        while j < cands.len()
            invariant
                0 <= j <= cands.len(),
                cv == lists_view(cands@),
                vf == verdict_of(*is_independent),
                forall|j: int| 0 <= j < cands.len() ==> #[trigger] is_independent.requires((x, y, &cands[j])),
                deterministic(*is_independent) ==> first_independent(cv, 0, x, y, vf) == first_independent(
                    cv,
                    j as int,
                    x,
                    y,
                    vf,
                ),
            decreases cands.len() - j,
        {
            let answer = is_independent(x, y, &cands[j]);
            assert(cv[j as int] == cands@[j as int]@);
            if answer {
                assert(verdict(*is_independent, x, y, cands@[j as int]@));
                return Some(j);
            }
            proof {
                if deterministic(*is_independent) {
                    if verdict(*is_independent, x, y, cv[j as int]) {
                        let w = choose|w: Vec<usize>|
                            w@ == cv[j as int] && call_ensures(*is_independent, (x, y, &w), true);
                        assert(call_ensures(*is_independent, (x, y, &cands[j as int]), false));
                        assert(false);
                    }
                }
            }
            j += 1;
        }
        None
    }

    /// One round of skeleton learning at conditioning-set size `depth`: every
    /// adjacent pair `x < y` (by name) is tested against the subsets of size
    /// `depth` of the other neighbours of `x`; the first independent one is
    /// recorded for the pair, and all separated pairs lose both directions at
    /// the end of the round.
    pub fn skeleton_round<F: Fn(usize, usize, &Vec<usize>) -> bool>(
        &mut self,
        depth: usize,
        is_independent: &F,
    ) -> (removed: bool)
        requires
            old(self).wf(),
            forall|a: usize, b: usize, z: &Vec<usize>|
                oracle_query(old(self).n(), a, b, z@) ==> #[trigger] is_independent.requires((a, b, z)),
        ensures
            final(self).wf(),
            final(self).names() == old(self).names(),
            final(self).edge_set().subset_of(old(self).edge_set()),
            final(self).edge_count() <= old(self).edge_count(),
            forall|u: usize, v: usize|
                #[trigger] old(self).edge_set().contains((u, v)) && !final(self).edge_set().contains((u, v))
                    ==> separated_in_round(
                    old(self).edge_set(),
                    final(self).edge_set(),
                    final(self).seps(),
                    old(self).n(),
                    depth as nat,
                    u,
                    v,
                ),
            forall|u: usize, v: usize|
                u < old(self).n() && v < old(self).n() && #[trigger] final(self).seps()[u as int][v as int]
                    != old(self).seps()[u as int][v as int] ==> adjacent(old(self).edge_set(), u, v)
                    && !adjacent(final(self).edge_set(), u, v),
            removed <==> final(self).edge_set() != old(self).edge_set(),
            removed ==> depth <= old(self).n(),
            deterministic(*is_independent) ==> final(self).edge_set() == round_edges(
                old(self).names(),
                old(self).edge_set(),
                depth as nat,
                verdict_of(*is_independent),
            ),
            deterministic(*is_independent) ==> final(self).seps() == round_seps(
                old(self).names(),
                old(self).edge_set(),
                old(self).seps(),
                depth as nat,
                verdict_of(*is_independent),
            ),
    {
        let n = self.graph.node_count();
        let ghost es = self.edge_set();
        let ghost names = self.names();
        let ghost seps0 = self.seps();
        let ghost vf = verdict_of(*is_independent);
        let ghost det = deterministic(*is_independent);
        let mut rem: Vec<(usize, usize)> = Vec::new();
        let mut x: usize = 0;
        assert(det ==> self.seps() =~~= seps_partial(names, es, seps0, depth as nat, vf, 0, 0));
        while x < n
            invariant
                self.wf(),
                self.names() == names,
                self.edge_set() == es,
                n == names.len(),
                vf == verdict_of(*is_independent),
                det == deterministic(*is_independent),
                forall|a: usize, b: usize, z: &Vec<usize>|
                    oracle_query(names.len(), a, b, z@) ==> #[trigger] is_independent.requires((a, b, z)),
                0 <= x <= n,
                forall|k: int|
                    0 <= k < rem@.len() ==> tested(names, es, (#[trigger] rem@[k]).0, rem@[k].1)
                        && scanned(rem@[k].0, rem@[k].1, x, 0),
                rem_recorded(rem@, self.seps(), es, n as nat, depth as nat),
                changes_listed(rem@, self.seps(), seps0, n as nat),
                seps0.len() == n,
                rem@.len() > 0 ==> depth <= n,
                det ==> rem_matches(rem@, names, es, depth as nat, vf, x, 0),
                det ==> self.seps() == seps_partial(names, es, seps0, depth as nat, vf, x, 0),
            decreases n - x,
        {
            let mut y: usize = 0;
            while y < n
                invariant
                    self.wf(),
                    self.names() == names,
                    self.edge_set() == es,
                    n == names.len(),
                    vf == verdict_of(*is_independent),
                    det == deterministic(*is_independent),
                    forall|a: usize, b: usize, z: &Vec<usize>|
                    oracle_query(names.len(), a, b, z@) ==> #[trigger] is_independent.requires((a, b, z)),
                    0 <= x < n,
                    0 <= y <= n,
                    forall|k: int|
                        0 <= k < rem@.len() ==> tested(names, es, (#[trigger] rem@[k]).0, rem@[k].1)
                            && scanned(rem@[k].0, rem@[k].1, x, y),
                    rem_recorded(rem@, self.seps(), es, n as nat, depth as nat),
                    changes_listed(rem@, self.seps(), seps0, n as nat),
                    seps0.len() == n,
                    rem@.len() > 0 ==> depth <= n,
                    det ==> rem_matches(rem@, names, es, depth as nat, vf, x, y),
                    det ==> self.seps() == seps_partial(names, es, seps0, depth as nat, vf, x, y),
                decreases n - y,
            {
                let ghost rem_before = rem@;
                let ghost seps_before = self.seps();
                proof {
                    lemma_name_less_asym(names[x as int], names[y as int]);
                }
                let mut hit = false;
                if x != y && self.are_adjacent(x, y) && names_in_order(
                    self.graph.name(x),
                    self.graph.name(y),
                ) {
                    assert(tested(names, es, x, y));
                    let pool = self.adjacent_except(x, y);
                    proof {
                        lemma_adjacent_below(es, x, y, n as nat);
                    }
                    if pool.len() >= depth {
                        let cands = get_combinations(&pool, depth);
                        assert(lists_view(cands@) == candidates(es, n as nat, depth as nat, x, y));
                        proof {
                            lemma_adjacent_below_increasing(es, x, y, n as nat);
                            assert forall|j: int| 0 <= j < cands.len() implies #[trigger] is_independent.requires(
                                (x, y, &cands[j]),
                            ) by {
                                assert(lists_view(cands@)[j] == cands[j]@);
                                lemma_combos_members(pool@, depth as nat, j);
                                lemma_combos_increasing(pool@, depth as nat, j);
                                let zv = cands[j]@;
                                assert forall|k: int| 0 <= k < zv.len() implies #[trigger] zv[k] < n && zv[k]
                                    != x && zv[k] != y by {
                                    assert(pool@.contains(zv[k]));
                                }
                                assert(oracle_query(names.len(), x, y, cands[j]@));
                            }
                        }
                        match Self::find_separator(&cands, x, y, is_independent) {
                            Some(j) => {
                                let ghost zv = cands@[j as int]@;
                                assert(lists_view(cands@)[j as int] == zv);
                                proof {
                                    lemma_combos_members(pool@, depth as nat, j as int);
                                }
                                assert forall|k: int| 0 <= k < zv.len() implies #[trigger] zv[k] < n by {
                                    assert(pool@.contains(zv[k]));
                                }
                                proof {
                                    lemma_combos_increasing(pool@, depth as nat, j as int);
                                    lemma_adjacent_below(es, x, x, n as nat);
                                    assert forall|k: int| 0 <= k < zv.len() implies neighbors(
                                        es,
                                        n as nat,
                                        x,
                                    ).contains(#[trigger] zv[k]) && zv[k] != y by {
                                        assert(pool@.contains(zv[k]));
                                    }
                                    assert(drawn_from_neighbors(es, n as nat, depth as nat, x, y, zv));
                                }
                                let ghost t_before = self.seps();
                                let ghost rem_b = rem@;
                                let z1 = copy_list(&cands[j]);
                                let z2 = copy_list(&cands[j]);
                                self.set_sep(x, y, z1);
                                self.set_sep(y, x, z2);
                                rem.push((x, y));
                                hit = true;
                                proof {
                                    let t = self.seps();
                                    assert(t[x as int][y as int] == Some(zv));
                                    assert(t[y as int][x as int] == Some(zv));
                                    assert forall|k: int| 0 <= k < rem@.len() implies {
                                        let (a, b) = #[trigger] rem@[k];
                                        &&& t[a as int][b as int] is Some
                                        &&& drawn_from_neighbors(es, n as nat, depth as nat, a, b, t[a as int][b as int]->0)
                                        &&& t[b as int][a as int] == t[a as int][b as int]
                                    } by {
                                        if k < rem_b.len() {
                                            let (a, b) = rem_b[k];
                                            assert(rem@[k] == rem_b[k]);
                                            assert(tested(names, es, a, b));
                                            assert((a, b) != (x, y));
                                            assert((a, b) != (y, x));
                                            assert(t[a as int][b as int] == t_before[a as int][b as int]);
                                            assert(t[b as int][a as int] == t_before[b as int][a as int]);
                                        } else {
                                            assert(rem@[k] == (x, y));
                                        }
                                    }
                                    assert forall|u: usize, v: usize|
                                        u < n && v < n && #[trigger] t[u as int][v as int] != seps0[u as int][v as int]
                                            implies rem@.contains((u, v)) || rem@.contains((v, u)) by {
                                        if t[u as int][v as int] != t_before[u as int][v as int] {
                                            assert(rem@[rem_b.len() as int] == (x, y));
                                        } else {
                                            assert(rem_b.contains((u, v)) || rem_b.contains((v, u)));
                                            if rem_b.contains((u, v)) {
                                                let i = choose|i: int| 0 <= i < rem_b.len() && rem_b[i] == (u, v);
                                                assert(rem@[i] == (u, v));
                                            } else {
                                                let i = choose|i: int| 0 <= i < rem_b.len() && rem_b[i] == (v, u);
                                                assert(rem@[i] == (v, u));
                                            }
                                        }
                                    }
                                }
                                assert(det ==> witness(es, n as nat, depth as nat, vf, x, y) == Some(zv));
                            },
                            None => {},
                        }
                    } else {
                        proof {
                            lemma_combos_too_few(pool@, depth as nat);
                        }
                    }
                }
                assert(hit ==> rem@ == rem_before.push((x, y)));
                assert(!hit ==> rem@ == rem_before);
                assert(det ==> (hit <==> cut(names, es, depth as nat, vf, x, y)));
                proof {
                    if det {
                        assert forall|u: usize, v: usize| u < n && v < n implies (#[trigger] rem@.contains((u, v)) <==> (
                        scanned(u, v, x, (y + 1) as usize) && cut(names, es, depth as nat, vf, u, v))) by {
                            let b = rem_before.contains((u, v));
                            if rem@.contains((u, v)) && (u, v) != (x, y) {
                                let k = choose|k: int| 0 <= k < rem@.len() && rem@[k] == (u, v);
                                assert(rem_before[k] == (u, v));
                            }
                            if b {
                                let k = choose|k: int| 0 <= k < rem_before.len() && rem_before[k] == (u, v);
                                assert(rem@[k] == (u, v));
                            }
                            if hit && (u, v) == (x, y) {
                                assert(rem@[rem_before.len() as int] == (u, v));
                            }
                        }
                    }
                }
                assert(det ==> self.seps() =~~= seps_partial(
                    names,
                    es,
                    seps0,
                    depth as nat,
                    vf,
                    x,
                    (y + 1) as usize,
                ));
                y += 1;
            }
            assert(det ==> self.seps() =~~= seps_partial(
                names,
                es,
                seps0,
                depth as nat,
                vf,
                (x + 1) as usize,
                0,
            ));
            x += 1;
        }
        let ghost seps_scan = self.seps();
        assert(det ==> seps_scan =~~= round_seps(names, es, seps0, depth as nat, vf));
        let mut k: usize = 0;
        while k < rem.len()
            invariant
                self.wf(),
                self.names() == names,
                self.seps() == seps_scan,
                n == names.len(),
                0 <= k <= rem.len(),
                vf == verdict_of(*is_independent),
                det == deterministic(*is_independent),
                det ==> rem_matches(rem@, names, es, depth as nat, vf, n as usize, 0),
                forall|i: int|
                    0 <= i < rem@.len() ==> tested(names, es, (#[trigger] rem@[i]).0, rem@[i].1),
                rem_recorded(rem@, seps_scan, es, n as nat, depth as nat),
                changes_listed(rem@, seps_scan, seps0, n as nat),
                es == old(self).edge_set(),
                self.edge_set() == es.filter(
                    |e: (usize, usize)| !removed_by(rem@.subrange(0, k as int), e),
                ),
            decreases rem.len() - k,
        {
            let (u, v) = rem[k];
            assert(tested(names, es, u, v));
            let ghost before = self.edge_set();
            self.remove_undirected_edge(u, v);
            assert(self.edge_set() =~= es.filter(
                |e: (usize, usize)| !removed_by(rem@.subrange(0, k + 1), e),
            )) by {
                let s1 = rem@.subrange(0, k + 1);
                let s0 = rem@.subrange(0, k as int);
                assert forall|e: (usize, usize)| s1.contains(e) <==> (s0.contains(e) || e == rem@[k as int]) by {
                    if s1.contains(e) {
                        let i = choose|i: int| 0 <= i < s1.len() && #[trigger] s1[i] == e;
                        if i < k {
                            assert(s0[i] == e);
                        }
                    }
                    if s0.contains(e) {
                        let i = choose|i: int| 0 <= i < s0.len() && #[trigger] s0[i] == e;
                        assert(s1[i] == e);
                    }
                    if e == rem@[k as int] {
                        assert(s1[k as int] == e);
                    }
                }
            }
            k += 1;
        }
        assert(rem@.subrange(0, rem@.len() as int) =~= rem@);
        proof {
            self.lemma_edge_count();
            old(self).lemma_edge_count();
            vstd::set_lib::lemma_len_subset(self.edge_set(), es);
            let fin = self.edge_set();
            assert forall|u: usize, v: usize|
                #[trigger] es.contains((u, v)) && !fin.contains((u, v)) implies separated_in_round(
                es,
                fin,
                self.seps(),
                n as nat,
                depth as nat,
                u,
                v,
            ) by {
                assert(removed_by(rem@, (u, v)));
                assert(removed_by(rem@, (v, u)));
                if rem@.contains((u, v)) {
                    let k = choose|k: int| 0 <= k < rem@.len() && rem@[k] == (u, v);
                    assert(rem@[k] == (u, v));
                } else {
                    let k = choose|k: int| 0 <= k < rem@.len() && rem@[k] == (v, u);
                    assert(rem@[k] == (v, u));
                }
            }
            assert forall|u: usize, v: usize|
                u < n && v < n && #[trigger] self.seps()[u as int][v as int] != seps0[u as int][v as int]
                    implies adjacent(es, u, v) && !adjacent(fin, u, v) by {
                assert(rem@.contains((u, v)) || rem@.contains((v, u)));
                assert(removed_by(rem@, (u, v)));
                assert(removed_by(rem@, (v, u)));
                if rem@.contains((u, v)) {
                    let k = choose|k: int| 0 <= k < rem@.len() && rem@[k] == (u, v);
                    assert(tested(names, es, rem@[k].0, rem@[k].1));
                } else {
                    let k = choose|k: int| 0 <= k < rem@.len() && rem@[k] == (v, u);
                    assert(tested(names, es, rem@[k].0, rem@[k].1));
                }
            }
        }
        proof {
            if det {
                assert forall|e: (usize, usize)| es.contains(e) implies (removed_by(rem@, e) <==> cut_pair(
                    names,
                    es,
                    depth as nat,
                    vf,
                    e.0,
                    e.1,
                )) by {
                    assert(old(self).graph.edges().contains(e));
                    assert(rem@.contains((e.0, e.1)) == rem@.contains(e));
                    assert(rem@.contains((e.0, e.1)) <==> cut(names, es, depth as nat, vf, e.0, e.1));
                    assert(rem@.contains((e.1, e.0)) <==> cut(names, es, depth as nat, vf, e.1, e.0));
                }
                assert(self.edge_set() =~= round_edges(names, es, depth as nat, vf));
            }
        }
        if rem.len() > 0 {
            proof {
                let r0 = rem@[0];
                assert(tested(names, es, r0.0, r0.1));
                assert(removed_by(rem@, r0));
                assert(removed_by(rem@, (r0.1, r0.0))) by {
                    assert(rem@[0] == r0);
                }
                if es.contains(r0) {
                    assert(!self.edge_set().contains(r0));
                } else {
                    assert(!self.edge_set().contains((r0.1, r0.0)));
                }
            }
        } else {
            assert(self.edge_set() =~= es);
        }
        rem.len() > 0
    }

    /// The largest number of neighbours of any node.
    fn max_degree(&self) -> (r: usize)
        requires
            self.wf(),
        ensures
            r == max_degree_below(self.edge_set(), self.n(), self.n()),
            r <= self.n(),
    {
        let n = self.graph.node_count();
        let mut m: usize = 0;
        let mut x: usize = 0;
        while x < n
            invariant
                self.wf(),
                n == self.n(),
                0 <= x <= n,
                m == max_degree_below(self.edge_set(), n as nat, x as nat),
                m <= n,
            decreases n - x,
        {
            let d = self.get_degree(x);
            if d > m {
                m = d;
            }
            x += 1;
        }
        m
    }

    /// Learns the skeleton: rounds at depth 0, 1, 2, ... until a round
    /// removes no edge and the depth exceeds every node's degree.
    pub fn learn_skeleton<F: Fn(usize, usize, &Vec<usize>) -> bool>(&mut self, is_independent: &F)
        requires
            old(self).wf(),
            forall|a: usize, b: usize, z: &Vec<usize>|
                oracle_query(old(self).n(), a, b, z@) ==> #[trigger] is_independent.requires((a, b, z)),
        ensures
            final(self).wf(),
            final(self).names() == old(self).names(),
            final(self).edge_set().subset_of(old(self).edge_set()),
            forall|u: usize, v: usize|
                #[trigger] old(self).edge_set().contains((u, v)) && !final(self).edge_set().contains((u, v))
                    ==> separated_from(
                    old(self).edge_set(),
                    final(self).edge_set(),
                    final(self).seps(),
                    old(self).n(),
                    u,
                    v,
                ),
            deterministic(*is_independent) ==> (final(self).edge_set(), final(self).seps()) == skeleton(
                old(self).names(),
                old(self).edge_set(),
                old(self).seps(),
                0,
                verdict_of(*is_independent),
            ),
    {
        let n = self.graph.node_count();
        let ghost names = self.names();
        let ghost target = skeleton(
            names,
            self.edge_set(),
            self.seps(),
            0,
            verdict_of(*is_independent),
        );
        let mut depth: usize = 0;
        loop
            invariant_except_break
                deterministic(*is_independent) ==> skeleton(
                    names,
                    self.edge_set(),
                    self.seps(),
                    depth as nat,
                    verdict_of(*is_independent),
                ) == target,
            invariant
                self.wf(),
                self.names() == names,
                n == names.len(),
                depth <= n + 1,
                old(self).wf(),
                old(self).names() == names,
                self.edge_set().subset_of(old(self).edge_set()),
                forall|u: usize, v: usize|
                    #[trigger] old(self).edge_set().contains((u, v)) && !self.edge_set().contains((u, v))
                        ==> separated_from(old(self).edge_set(), self.edge_set(), self.seps(), n as nat, u, v),
                forall|a: usize, b: usize, z: &Vec<usize>|
                    oracle_query(names.len(), a, b, z@) ==> #[trigger] is_independent.requires((a, b, z)),
                target == skeleton(
                    names,
                    old(self).edge_set(),
                    old(self).seps(),
                    0,
                    verdict_of(*is_independent),
                ),
            ensures
                self.wf(),
                self.names() == names,
                self.edge_set().subset_of(old(self).edge_set()),
                forall|u: usize, v: usize|
                    #[trigger] old(self).edge_set().contains((u, v)) && !self.edge_set().contains((u, v))
                        ==> separated_from(old(self).edge_set(), self.edge_set(), self.seps(), n as nat, u, v),
                deterministic(*is_independent) ==> (self.edge_set(), self.seps()) == target,
            decreases n + 2 - depth,
        {
            let ghost es_prev = self.edge_set();
            let ghost seps_prev = self.seps();
            let removed = self.skeleton_round(depth, is_independent);
            proof {
                lemma_subset_trans(self.edge_set(), es_prev, old(self).edge_set());
                let es0 = old(self).edge_set();
                let cur = self.edge_set();
                let t = self.seps();
                assert forall|u: usize, v: usize|
                    #[trigger] es0.contains((u, v)) && !cur.contains((u, v)) implies separated_from(
                    es0,
                    cur,
                    t,
                    n as nat,
                    u,
                    v,
                ) by {
                    if es_prev.contains((u, v)) {
                        assert(separated_in_round(es_prev, cur, t, n as nat, depth as nat, u, v));
                        let z = t[u as int][v as int]->0;
                        if drawn_from_neighbors(es_prev, n as nat, depth as nat, u, v, z) {
                            assert forall|k: int| 0 <= k < z.len() implies neighbors(es0, n as nat, u).contains(
                                #[trigger] z[k],
                            ) && z[k] != v by {
                                lemma_neighbors_shrink(es_prev, es0, n as nat, u, z[k]);
                            }
                        } else {
                            assert forall|k: int| 0 <= k < z.len() implies neighbors(es0, n as nat, v).contains(
                                #[trigger] z[k],
                            ) && z[k] != u by {
                                lemma_neighbors_shrink(es_prev, es0, n as nat, v, z[k]);
                            }
                        }
                    } else {
                        assert(separated_from(es0, es_prev, seps_prev, n as nat, u, v));
                        assert(!adjacent(es_prev, u, v));
                        old(self).lemma_wf_facts();
                        assert(u < n && v < n);
                        if t[u as int][v as int] != seps_prev[u as int][v as int] {
                            assert(adjacent(es_prev, u, v));
                        }
                        assert(!adjacent(cur, u, v)) by {
                            assert(!es_prev.contains((v, u)));
                        }
                    }
                }
            }
            if !removed {
                let m = self.max_degree();
                if depth > m {
                    break;
                }
            }
            depth += 1;
        }
    }

    /// The unshielded triples `(x, y, z)`: `x` and `z` are neighbours of `y`
    /// (in that order among them) and are not adjacent to each other.
    pub fn find_unshielded_triples(&self) -> (r: Vec<(usize, usize, usize)>)
        requires
            self.wf(),
        ensures
            r@ == triples_below(self.edge_set(), self.n(), self.n()),
            forall|k: int| 0 <= k < r@.len() ==> good_triple(self.edge_set(), self.n(), #[trigger] r@[k]),
    {
        let n = self.graph.node_count();
        let ghost es = self.edge_set();
        let mut ts: Vec<(usize, usize, usize)> = Vec::new();
        let mut y: usize = 0;
        while y < n
            invariant
                self.wf(),
                n == self.n(),
                es == self.edge_set(),
                0 <= y <= n,
                ts@ == triples_below(es, n as nat, y as nat),
                forall|k: int| 0 <= k < ts@.len() ==> good_triple(es, n as nat, #[trigger] ts@[k]),
            decreases n - y,
        {
            let nb = self.get_neighbors(y);
            proof {
                lemma_adjacent_below(es, y, y, n as nat);
            }
            let ghost base = ts@;
            let mut i: usize = 0;
            while i < nb.len()
                invariant
                    self.wf(),
                    n == self.n(),
                    es == self.edge_set(),
                    y < n,
                    nb@ == neighbors(es, n as nat, y),
                    forall|k: int|
                        0 <= k < nb@.len() ==> #[trigger] nb@[k] < n && nb@[k] != y && adjacent(es, y, nb@[k]),
                    0 <= i <= nb.len(),
                    base == triples_below(es, n as nat, y as nat),
                    ts@ == base + node_triples(es, nb@, y, i as nat),
                    forall|k: int| 0 <= k < ts@.len() ==> good_triple(es, n as nat, #[trigger] ts@[k]),
                decreases nb.len() - i,
            {
                let mut j: usize = i + 1;
                let ghost mid = ts@;
                while j < nb.len()
                    invariant
                        self.wf(),
                        n == self.n(),
                        es == self.edge_set(),
                        y < n,
                        forall|k: int|
                            0 <= k < nb@.len() ==> #[trigger] nb@[k] < n && nb@[k] != y && adjacent(es, y, nb@[k]),
                        0 <= i < nb.len(),
                        i + 1 <= j <= nb.len(),
                        mid == base + node_triples(es, nb@, y, i as nat),
                        ts@ == mid + row_triples(es, nb@, y, i as int, j as int),
                        forall|k: int| 0 <= k < ts@.len() ==> good_triple(es, n as nat, #[trigger] ts@[k]),
                    decreases nb.len() - j,
                {
                    let a = nb[i];
                    let c = nb[j];
                    if !self.are_adjacent(a, c) {
                        ts.push((a, y, c));
                    }
                    assert(ts@ =~= mid + row_triples(es, nb@, y, i as int, j + 1));
                    j += 1;
                }
                assert(ts@ =~= base + node_triples(es, nb@, y, (i + 1) as nat));
                i += 1;
            }
            assert(ts@ =~= triples_below(es, n as nat, (y + 1) as nat));
            y += 1;
        }
        ts
    }

    /// Whether the separating set recorded for `(x, z)` holds `y`.
    fn sep_contains(&self, x: usize, z: usize, y: usize) -> (r: bool)
        requires
            self.wf(),
            x < self.n(),
            z < self.n(),
        ensures
            r == sep_holds(self.seps(), x, z, y),
    {
        match &self.sepsets[x][z] {
            Some(s) => {
                assert(self.seps()[x as int][z as int] == Some(s@));
                let mut k: usize = 0;
                while k < s.len()
                    invariant
                        0 <= k <= s.len(),
                        forall|i: int| 0 <= i < k ==> s@[i] != y,
                        self.seps()[x as int][z as int] == Some(s@),
                    decreases s.len() - k,
                {
                    if s[k] == y {
                        assert(s@[k as int] == y);
                        return true;
                    }
                    k += 1;
                }
                false
            },
            None => false,
        }
    }

    /// Orients every unshielded triple `x – y – z` whose middle node is
    /// missing from the separating set of `(x, z)` (or with none recorded) as
    /// the collider `x → y ← z`.
    pub fn orient_colliders(&mut self)
        requires
            old(self).wf(),
        ensures
            final(self).wf(),
            final(self).names() == old(self).names(),
            final(self).seps() == old(self).seps(),
            final(self).edge_set() == colliders(old(self).edge_set(), old(self).n(), old(self).seps()),
            forall|u: usize, v: usize|
                #[trigger] adjacent(final(self).edge_set(), u, v) == adjacent(old(self).edge_set(), u, v),
    {
        let ts = self.find_unshielded_triples();
        let ghost es = self.edge_set();
        let ghost n = self.n();
        let mut k: usize = 0;
        while k < ts.len()
            invariant
                self.wf(),
                self.names() == old(self).names(),
                self.seps() == old(self).seps(),
                es == old(self).edge_set(),
                n == self.n(),
                ts@ == triples_below(es, n, n),
                forall|i: int| 0 <= i < ts@.len() ==> good_triple(es, n, #[trigger] ts@[i]),
                0 <= k <= ts.len(),
                self.edge_set() == orient_triples(es, self.seps(), ts@, k as nat),
                forall|u: usize, v: usize| #[trigger] adjacent(self.edge_set(), u, v) == adjacent(es, u, v),
            decreases ts.len() - k,
        {
            let (x, y, z) = ts[k];
            assert(good_triple(es, n, ts@[k as int]));
            if !self.sep_contains(x, z, y) {
                let ghost e1 = self.edge_set();
                proof {
                    lemma_orient_keeps_adjacency(e1, x, y);
                }
                self.orient_directed(x, y);
                let ghost e2 = self.edge_set();
                proof {
                    lemma_orient_keeps_adjacency(e2, z, y);
                }
                self.orient_directed(z, y);
            }
            k += 1;
        }
    }

    /// The first `(y, x, z)` in scan order with `x → y – z` and `x`, `z` not
    /// adjacent, if any.
    fn find_rule(&self) -> (r: Option<(usize, usize, usize)>)
        requires
            self.wf(),
        ensures
            match r {
                Some(t) => is_first_rule(self.edge_set(), self.n(), t),
                None => !rule_somewhere(self.edge_set(), self.n()),
            },
    {
        let n = self.graph.node_count();
        let ghost es = self.edge_set();
        let mut y: usize = 0;
        while y < n
            invariant
                self.wf(),
                n == self.n(),
                es == self.edge_set(),
                0 <= y <= n,
                forall|s: (usize, usize, usize)|
                    s.0 < y && s.1 < n && s.2 < n ==> !#[trigger] rule_applies(es, s.1, s.0, s.2),
            decreases n - y,
        {
            let mut x: usize = 0;
            while x < n
                invariant
                    self.wf(),
                    n == self.n(),
                    es == self.edge_set(),
                    0 <= y < n,
                    0 <= x <= n,
                    forall|s: (usize, usize, usize)|
                        (s.0 < y || (s.0 == y && s.1 < x)) && s.0 < n && s.1 < n && s.2 < n
                            ==> !#[trigger] rule_applies(es, s.1, s.0, s.2),
                decreases n - x,
            {
                if self.has(x, y) && !self.has(y, x) {
                    let mut z: usize = 0;
                    while z < n
                        invariant
                            self.wf(),
                            n == self.n(),
                            es == self.edge_set(),
                            0 <= y < n,
                            0 <= x < n,
                            0 <= z <= n,
                            directed(es, x, y),
                            forall|s: (usize, usize, usize)|
                                (s.0 < y || (s.0 == y && s.1 < x) || (s.0 == y && s.1 == x && s.2 < z))
                                    && s.0 < n && s.1 < n && s.2 < n ==> !#[trigger] rule_applies(
                                    es,
                                    s.1,
                                    s.0,
                                    s.2,
                                ),
                        decreases n - z,
                    {
                        if self.has(y, z) && self.has(z, y) && !self.are_adjacent(x, z) {
                            assert(rule_applies(es, x, y, z));
                            assert forall|s: (usize, usize, usize)|
                                s.0 < n && s.1 < n && s.2 < n && #[trigger] lex_before(s, (y, x, z))
                                    implies !rule_applies(es, s.1, s.0, s.2) by {}
                            return Some((y, x, z));
                        }
                        z += 1;
                    }
                }
                x += 1;
            }
            y += 1;
        }
        proof {
            if rule_somewhere(es, n as nat) {
                let t = choose|t: (usize, usize, usize)| is_first_rule(es, n as nat, t);
                assert(!rule_applies(es, t.1, t.0, t.2));
            }
        }
        None
    }

    /// Propagates directions: while some `x → y – z` has `x` and `z` not
    /// adjacent, orients `y → z` (the first such place in scan order). Edges
    /// already directed keep their direction.
    pub fn orient_meek_rules(&mut self)
        requires
            old(self).wf(),
        ensures
            final(self).wf(),
            final(self).names() == old(self).names(),
            final(self).seps() == old(self).seps(),
            final(self).edge_set() == propagate(
                old(self).edge_set(),
                old(self).n(),
                old(self).edge_set().len(),
            ),
            !rule_somewhere(final(self).edge_set(), final(self).n()),
            forall|u: usize, v: usize|
                #[trigger] adjacent(final(self).edge_set(), u, v) == adjacent(old(self).edge_set(), u, v),
            forall|u: usize, v: usize|
                directed(old(self).edge_set(), u, v) ==> #[trigger] directed(final(self).edge_set(), u, v),
    {
        let ghost n = self.n();
        let ghost target = propagate(self.edge_set(), n, self.edge_set().len());
        loop
            invariant
                self.wf(),
                self.names() == old(self).names(),
                self.seps() == old(self).seps(),
                n == self.n(),
                target == propagate(old(self).edge_set(), n, old(self).edge_set().len()),
                propagate(self.edge_set(), n, self.edge_set().len()) == target,
                forall|u: usize, v: usize|
                    #[trigger] adjacent(self.edge_set(), u, v) == adjacent(old(self).edge_set(), u, v),
                forall|u: usize, v: usize|
                    directed(old(self).edge_set(), u, v) ==> #[trigger] directed(self.edge_set(), u, v),
            ensures
                self.wf(),
                self.names() == old(self).names(),
                self.seps() == old(self).seps(),
                self.edge_set() == target,
                !rule_somewhere(self.edge_set(), n),
                forall|u: usize, v: usize|
                    #[trigger] adjacent(self.edge_set(), u, v) == adjacent(old(self).edge_set(), u, v),
                forall|u: usize, v: usize|
                    directed(old(self).edge_set(), u, v) ==> #[trigger] directed(self.edge_set(), u, v),
            decreases self.edge_count(),
        {
            match self.find_rule() {
                None => {
                    break;
                },
                Some(t) => {
                    let ghost es = self.edge_set();
                    proof {
                        self.lemma_edge_count();
                        let c = choose|c: (usize, usize, usize)| is_first_rule(es, n, c);
                        lemma_first_rule_unique(es, n, c, t);
                        assert(es.contains((t.0, t.2)));
                        assert(es.len() > 0) by {
                            vstd::set_lib::lemma_set_empty_equivalency_len(es);
                        }
                        lemma_orient_keeps_adjacency(es, t.0, t.2);
                    }
                    self.orient_directed(t.0, t.2);
                    proof {
                        self.lemma_edge_count();
                        assert forall|u: usize, v: usize|
                            directed(old(self).edge_set(), u, v) implies #[trigger] directed(
                                self.edge_set(),
                                u,
                                v,
                            ) by {
                            assert(directed(es, u, v));
                        }
                    }
                },
            }
        }
    }

    /// Runs the search: skeleton learning with the oracle `is_independent`
    /// (called as `is_independent(x, y, z)` for "x independent of y given z",
    /// always on two different nodes and a strictly increasing list of other
    /// nodes), then collider orientation, then propagation of directions.
    /// With an oracle that answers each question one way, the result is
    /// exactly `pc_search` of the starting state and the oracle's verdicts.
    pub fn run<F: Fn(usize, usize, &Vec<usize>) -> bool>(&mut self, is_independent: &F)
        requires
            old(self).wf(),
            forall|a: usize, b: usize, z: &Vec<usize>|
                oracle_query(old(self).n(), a, b, z@) ==> #[trigger] is_independent.requires((a, b, z)),
        ensures
            final(self).wf(),
            final(self).names() == old(self).names(),
            forall|u: usize, v: usize|
                #[trigger] adjacent(final(self).edge_set(), u, v) ==> adjacent(old(self).edge_set(), u, v),
            deterministic(*is_independent) ==> (final(self).edge_set(), final(self).seps()) == pc_search(
                old(self).names(),
                old(self).edge_set(),
                old(self).seps(),
                verdict_of(*is_independent),
            ),
    {
        self.learn_skeleton(is_independent);
        let ghost skel = self.edge_set();
        self.orient_colliders();
        self.orient_meek_rules();
        assert forall|u: usize, v: usize|
            #[trigger] adjacent(self.edge_set(), u, v) implies adjacent(old(self).edge_set(), u, v) by {
            assert(adjacent(skel, u, v));
        }
    }

    /// The variable names, by node index.
    pub fn variables(&self) -> (r: Vec<Variable>)
        requires
            self.wf(),
        ensures
            strings_view(r@) == self.names(),
    {
        self.graph.variables()
    }

    /// The index of the variable `name`, or the missing-variable error.
    pub fn index_of(&self, name: &Variable) -> (r: Result<usize, CausalError>)
        requires
            self.wf(),
        ensures
            match r {
                Ok(i) => i < self.n() && self.names()[i as int] == name@,
                Err(e) => !self.names().contains(name@) && e == CausalError::MissingVariable(*name),
            },
    {
        match self.graph.get_index(name) {
            Some(i) => Ok(i),
            None => Err(CausalError::MissingVariable(name.clone())),
        }
    }

    /// The names of a list of node indices.
    fn names_of_list(&self, ix: &Vec<usize>) -> (r: Vec<Variable>)
        requires
            self.wf(),
            forall|k: int| 0 <= k < ix@.len() ==> #[trigger] ix@[k] < self.n(),
        ensures
            strings_view(r@) == names_of(self.names(), ix@),
    {
        let mut r: Vec<Variable> = Vec::new();
        let mut k: usize = 0;
        while k < ix.len()
            invariant
                self.wf(),
                forall|k: int| 0 <= k < ix@.len() ==> #[trigger] ix@[k] < self.n(),
                0 <= k <= ix.len(),
                strings_view(r@) =~= names_of(self.names(), ix@.subrange(0, k as int)),
            decreases ix.len() - k,
        {
            let ghost before = r@;
            let s = self.graph.name(ix[k]).clone();
            r.push(s);
            assert(strings_view(r@) =~= strings_view(before).push(s@));
            assert(ix@.subrange(0, k + 1) =~= ix@.subrange(0, k as int).push(ix@[k as int]));
            k += 1;
        }
        assert(ix@.subrange(0, ix.len() as int) =~= ix@);
        r
    }

    /// The current edges as `(from, to)` names, ordered by the nodes' indices.
    pub fn edges(&self) -> (r: Vec<(Variable, Variable)>)
        requires
            self.wf(),
        ensures
            r@.map_values(|p: (Variable, Variable)| (p.0@, p.1@)) == edges_below(
                self.edge_set(),
                self.n(),
                self.n(),
            ).map_values(|e: (usize, usize)| (self.names()[e.0 as int], self.names()[e.1 as int])),
    {
        let n = self.graph.node_count();
        let ghost es = self.edge_set();
        let ghost nm = self.names();
        let mut r: Vec<(Variable, Variable)> = Vec::new();
        let mut u: usize = 0;
        while u < n
            invariant
                self.wf(),
                n == self.n(),
                es == self.edge_set(),
                nm == self.names(),
                0 <= u <= n,
                r@.map_values(|p: (Variable, Variable)| (p.0@, p.1@)) =~= edges_below(
                    es,
                    n as nat,
                    u as nat,
                ).map_values(|e: (usize, usize)| (nm[e.0 as int], nm[e.1 as int])),
            decreases n - u,
        {
            let ghost base = edges_below(es, n as nat, u as nat);
            let mut v: usize = 0;
            while v < n
                invariant
                    self.wf(),
                    n == self.n(),
                    es == self.edge_set(),
                    nm == self.names(),
                    0 <= u < n,
                    0 <= v <= n,
                    base == edges_below(es, n as nat, u as nat),
                    r@.map_values(|p: (Variable, Variable)| (p.0@, p.1@)) =~= (base + out_edges(
                        es,
                        u,
                        v as nat,
                    )).map_values(|e: (usize, usize)| (nm[e.0 as int], nm[e.1 as int])),
                decreases n - v,
            {
                let ghost before = r@;
                let ghost prev = base + out_edges(es, u, v as nat);
                if self.has(u, v) {
                    let a = self.graph.name(u).clone();
                    let b = self.graph.name(v).clone();
                    r.push((a, b));
                    assert(r@.map_values(|p: (Variable, Variable)| (p.0@, p.1@)) =~= before.map_values(
                        |p: (Variable, Variable)| (p.0@, p.1@),
                    ).push((a@, b@)));
                    assert(base + out_edges(es, u, (v + 1) as nat) =~= prev.push((u, v)));
                    assert((base + out_edges(es, u, (v + 1) as nat)).map_values(
                        |e: (usize, usize)| (nm[e.0 as int], nm[e.1 as int]),
                    ) =~= prev.map_values(|e: (usize, usize)| (nm[e.0 as int], nm[e.1 as int])).push(
                        (nm[u as int], nm[v as int]),
                    ));
                } else {
                    assert(base + out_edges(es, u, (v + 1) as nat) =~= prev);
                }
                v += 1;
            }
            u += 1;
        }
        r
    }

    /// The neighbours of `name` (edges in either direction), by index.
    pub fn neighbors(&self, name: &Variable) -> (r: Result<Vec<Variable>, CausalError>)
        requires
            self.wf(),
        ensures
            match r {
                Ok(v) => exists|x: usize|
                    x < self.n() && self.names()[x as int] == name@ && strings_view(v@) == names_of(
                        self.names(),
                        neighbors(self.edge_set(), self.n(), x),
                    ),
                Err(e) => !self.names().contains(name@) && e == CausalError::MissingVariable(*name),
            },
    {
        let x = self.index_of(name)?;
        let nb = self.get_neighbors(x);
        proof {
            lemma_adjacent_below(self.edge_set(), x, x, self.n());
        }
        Ok(self.names_of_list(&nb))
    }

    /// The parents of `name`: the nodes with a directed edge into it, by index.
    pub fn parents(&self, name: &Variable) -> (r: Result<Vec<Variable>, CausalError>)
        requires
            self.wf(),
        ensures
            match r {
                Ok(v) => exists|x: usize|
                    x < self.n() && self.names()[x as int] == name@ && strings_view(v@) == names_of(
                        self.names(),
                        directed_parents_below(self.edge_set(), x, self.n()),
                    ),
                Err(e) => !self.names().contains(name@) && e == CausalError::MissingVariable(*name),
            },
    {
        let x = self.index_of(name)?;
        let n = self.graph.node_count();
        let mut ps: Vec<usize> = Vec::new();
        let mut u: usize = 0;
        while u < n
            invariant
                self.wf(),
                n == self.n(),
                x < n,
                0 <= u <= n,
                ps@ == directed_parents_below(self.edge_set(), x, u as nat),
                forall|k: int| 0 <= k < ps@.len() ==> #[trigger] ps@[k] < u,
            decreases n - u,
        {
            if self.has(u, x) && !self.has(x, u) {
                ps.push(u);
            }
            u += 1;
        }
        Ok(self.names_of_list(&ps))
    }

    /// The separating set recorded for the pair `x`, `y`, if any.
    pub fn sepset(&self, x: &Variable, y: &Variable) -> (r: Result<Option<Vec<Variable>>, CausalError>)
        requires
            self.wf(),
        ensures
            match r {
                Ok(o) => exists|a: usize, b: usize|
                    a < self.n() && b < self.n() && self.names()[a as int] == x@ && self.names()[b as int] == y@
                        && match self.seps()[a as int][b as int] {
                        Some(z) => o is Some && strings_view(o->0@) == names_of(self.names(), z),
                        None => o is None,
                    },
                Err(e) => (!self.names().contains(x@) && e == CausalError::MissingVariable(*x)) || (
                self.names().contains(x@) && !self.names().contains(y@) && e == CausalError::MissingVariable(*y)),
            },
    {
        let a = self.index_of(x)?;
        let b = self.index_of(y)?;
        match &self.sepsets[a][b] {
            Some(z) => {
                assert(self.seps()[a as int][b as int] == Some(z@));
                assert forall|k: int| 0 <= k < z@.len() implies #[trigger] z@[k] < self.n() by {
                    assert(self.seps()[a as int][b as int]->0[k] == z@[k]);
                }
                Ok(Some(self.names_of_list(z)))
            },
            None => Ok(None),
        }
    }

    /// A search over `variables`, starting from the complete graph (every
    /// pair joined in both directions) with no separating set recorded.
    pub fn new(variables: Vec<Variable>) -> (r: PC)
        requires
            distinct_names(strings_view(variables@)),
            variables.len() * variables.len() < u32::MAX,
        ensures
            r.wf(),
            r.names() == strings_view(variables@),
            r.edge_set() == complete_edges(variables.len() as nat),
            r.seps() == empty_seps(variables.len() as nat),
    {
        let n = variables.len();
        let mut dag = DAG::new();
        let mut i: usize = 0;
        while i < n
            invariant
                n == variables.len(),
                n * n < u32::MAX,
                0 <= i <= n,
                dag.wf(),
                dag.nodes() =~= strings_view(variables@).subrange(0, i as int),
                dag.edges() == Seq::<(usize, usize)>::empty(),
            decreases n - i,
        {
            proof {
                assert(n <= n * n) by (nonlinear_arith)
                    requires
                        n >= 1,
                ;
            }
            dag.add_node(variables[i].clone());
            i += 1;
        }
        proof {
            if n >= 1 {
                assert(n <= n * n) by (nonlinear_arith)
                    requires
                        n >= 1,
                ;
            }
        }
        let mut u: usize = 0;
        while u < n
            invariant
                n == variables.len(),
                n < u32::MAX,
                n * n < u32::MAX,
                0 <= u <= n,
                dag.wf(),
                dag.nodes() =~= strings_view(variables@),
                dag.edges().no_duplicates(),
                dag.edges().len() <= u * n,
                forall|e: (usize, usize)|
                    dag.edges().contains(e) <==> (e.0 < n && e.1 < n && e.0 != e.1 && e.0 < u),
            decreases n - u,
        {
            let mut v: usize = 0;
            while v < n
                invariant
                    n == variables.len(),
                    n < u32::MAX,
                    n * n < u32::MAX,
                    0 <= u < n,
                    0 <= v <= n,
                    dag.wf(),
                    dag.nodes() =~= strings_view(variables@),
                    dag.edges().no_duplicates(),
                    dag.edges().len() <= u * n + v,
                    forall|e: (usize, usize)|
                        dag.edges().contains(e) <==> (e.0 < n && e.1 < n && e.0 != e.1 && (e.0 < u
                            || (e.0 == u && e.1 < v))),
                decreases n - v,
            {
                proof {
                    assert(u * n + v < n * n) by (nonlinear_arith)
                        requires
                            u < n,
                            v < n,
                    ;
                }
                if u != v {
                    proof {
                        lemma_push_fresh(dag.edges(), (u, v));
                    }
                    graph_add_edge(&mut dag.graph, u, v);
                    assert forall|e: (usize, usize)|
                        dag.edges().contains(e) <==> (e.0 < n && e.1 < n && e.0 != e.1 && (e.0 < u
                            || (e.0 == u && e.1 < v + 1))) by {
                        assert(dag.edges().to_set().contains(e) == dag.edges().contains(e));
                    }
                }
                v += 1;
            }
            proof {
                assert(u * n + n == (u + 1) * n) by (nonlinear_arith);
            }
            u += 1;
        }
        let mut sepsets: Vec<Vec<Option<Vec<usize>>>> = Vec::new();
        let mut a: usize = 0;
        while a < n
            invariant
                0 <= a <= n,
                sepsets@.len() == a,
                forall|k: int| 0 <= k < a ==> (#[trigger] sepsets@[k])@.len() == n && forall|j: int|
                    0 <= j < n ==> sepsets@[k]@[j] is None,
            decreases n - a,
        {
            let mut row: Vec<Option<Vec<usize>>> = Vec::new();
            let mut b: usize = 0;
            while b < n
                invariant
                    0 <= b <= n,
                    row@.len() == b,
                    forall|j: int| 0 <= j < b ==> row@[j] is None,
                decreases n - b,
            {
                row.push(None);
                b += 1;
            }
            sepsets.push(row);
            a += 1;
        }
        proof {
            if n >= 1 {
                assert(n <= n * n) by (nonlinear_arith)
                    requires
                        n >= 1,
                ;
            }
        }
        let r = PC { graph: dag, sepsets };
        assert(r.seps() =~~= empty_seps(n as nat));
        assert(r.edge_set() =~= complete_edges(n as nat));
        r
    }
}

} // verus!
