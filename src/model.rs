//! Mathematical model of the PC search: a graph is a set of directed edges
//! over node indices; an undirected edge is the pair of opposite edges.
use crate::combinations::combos;
use vstd::prelude::*;

verus! {

/// A set of directed edges `(from, to)` over node indices.
pub type EdgeSet = Set<(usize, usize)>;

/// Separating sets by ordered pair of node indices (stored for both orders).
pub type SepTable = Seq<Seq<Option<Seq<usize>>>>;

/// A verdict of the independence oracle on `(x, y)` given the list `z`.
pub type Verdict = spec_fn(usize, usize, Seq<usize>) -> bool;

/// The oracle `f` can answer "independent" for `(x, y)` given a list with view `z`.
pub open spec fn verdict<F: Fn(usize, usize, &Vec<usize>) -> bool>(
    f: F,
    x: usize,
    y: usize,
    z: Seq<usize>,
) -> bool {
    exists|v: Vec<usize>| v@ == z && call_ensures(f, (x, y, &v), true)
}

/// The verdicts of the oracle `f` as a spec function.
pub open spec fn verdict_of<F: Fn(usize, usize, &Vec<usize>) -> bool>(f: F) -> Verdict {
    |x: usize, y: usize, z: Seq<usize>| verdict(f, x, y, z)
}

/// The oracle `f` gives one answer for each `(x, y)` and conditioning list.
pub open spec fn deterministic<F: Fn(usize, usize, &Vec<usize>) -> bool>(f: F) -> bool {
    forall|x: usize, y: usize, v: Vec<usize>, w: Vec<usize>, r: bool, s: bool|
        v@ == w@ && #[trigger] call_ensures(f, (x, y, &v), r) && #[trigger] call_ensures(
            f,
            (x, y, &w),
            s,
        ) ==> r == s
}

/// `adjacent_below` lists its nodes in strictly increasing order.
pub proof fn lemma_adjacent_below_increasing(es: EdgeSet, x: usize, skip: usize, k: nat)
    requires
        k <= usize::MAX,
    ensures
        crate::combinations::increasing(adjacent_below(es, x, skip, k)),
    decreases k,
{
    if k > 0 {
        lemma_adjacent_below_increasing(es, x, skip, (k - 1) as nat);
        lemma_adjacent_below(es, x, skip, (k - 1) as nat);
        let rest = adjacent_below(es, x, skip, (k - 1) as nat);
        let r = adjacent_below(es, x, skip, k);
        let v = (k - 1) as usize;
        if v != x && v != skip && adjacent(es, x, v) {
            assert(r == rest.push(v));
            assert forall|i: int, j: int| 0 <= i < j < r.len() implies r[i] < r[j] by {
                assert(r[i] == rest[i]);
                if j < rest.len() {
                    assert(r[j] == rest[j]);
                    assert(rest[i] < rest[j]);
                } else {
                    assert(r[j] == v);
                    assert(rest[i] < k - 1);
                }
            }
        } else {
            assert(r == rest);
        }
    }
}

/// A question the search may put to the independence oracle among `n`
/// nodes: two different nodes, and a strictly increasing list of other nodes.
pub open spec fn oracle_query(n: nat, x: usize, y: usize, z: Seq<usize>) -> bool {
    &&& x < n && y < n && x != y
    &&& crate::combinations::increasing(z)
    &&& forall|k: int| 0 <= k < z.len() ==> #[trigger] z[k] < n && z[k] != x && z[k] != y
}

/// Members of `adjacent_below`: exactly the nodes below `k`, other than `x`
/// and `skip`, adjacent to `x`.
pub proof fn lemma_adjacent_below(es: EdgeSet, x: usize, skip: usize, k: nat)
    ensures
        adjacent_below(es, x, skip, k).len() <= k,
        forall|i: int|
            0 <= i < adjacent_below(es, x, skip, k).len() ==> {
                let v = #[trigger] adjacent_below(es, x, skip, k)[i];
                v < k && v != x && v != skip && adjacent(es, x, v)
            },
        forall|v: usize|
            #[trigger] adjacent_below(es, x, skip, k).contains(v) <==> (v < k && v != x && v != skip
                && adjacent(es, x, v)),
    decreases k,
{
    if k > 0 {
        lemma_adjacent_below(es, x, skip, (k - 1) as nat);
        let rest = adjacent_below(es, x, skip, (k - 1) as nat);
        let r = adjacent_below(es, x, skip, k);
        assert forall|v: usize| #[trigger] r.contains(v) <==> (v < k && v != x && v != skip && adjacent(es, x, v)) by {
            if r.contains(v) {
                let i = choose|i: int| 0 <= i < r.len() && r[i] == v;
                if i < rest.len() {
                    assert(rest[i] == v);
                }
            }
            if v < k && v != x && v != skip && adjacent(es, x, v) {
                if v == k - 1 {
                    assert(r[r.len() - 1] == v);
                } else {
                    assert(rest.contains(v));
                    let i = choose|i: int| 0 <= i < rest.len() && rest[i] == v;
                    assert(r[i] == v);
                }
            }
        }
    }
}

/// An edge joins `u` and `v`, in either direction.
pub open spec fn adjacent(es: EdgeSet, u: usize, v: usize) -> bool {
    es.contains((u, v)) || es.contains((v, u))
}

/// Both directions are present: `u – v` is undirected.
pub open spec fn undirected(es: EdgeSet, u: usize, v: usize) -> bool {
    es.contains((u, v)) && es.contains((v, u))
}

/// Only `u → v` is present.
pub open spec fn directed(es: EdgeSet, u: usize, v: usize) -> bool {
    es.contains((u, v)) && !es.contains((v, u))
}

/// The nodes below `k` adjacent to `x`, other than `x` and `skip`, ascending.
pub open spec fn adjacent_below(es: EdgeSet, x: usize, skip: usize, k: nat) -> Seq<usize>
    decreases k,
{
    if k == 0 {
        Seq::<usize>::empty()
    } else {
        let rest = adjacent_below(es, x, skip, (k - 1) as nat);
        let v = (k - 1) as usize;
        if v != x && v != skip && adjacent(es, x, v) {
            rest.push(v)
        } else {
            rest
        }
    }
}

/// The neighbours of `x` among `n` nodes, ascending.
pub open spec fn neighbors(es: EdgeSet, n: nat, x: usize) -> Seq<usize> {
    adjacent_below(es, x, x, n)
}

/// The largest neighbour count of the nodes below `k`.
pub open spec fn max_degree_below(es: EdgeSet, n: nat, k: nat) -> nat
    decreases k,
{
    if k == 0 {
        0
    } else {
        let d = neighbors(es, n, (k - 1) as usize).len();
        let m = max_degree_below(es, n, (k - 1) as nat);
        if d > m {
            d
        } else {
            m
        }
    }
}

/// Strict lexicographic order of names, character by character.
pub open spec fn name_less(a: Seq<char>, b: Seq<char>) -> bool
    decreases a.len(),
{
    if b.len() == 0 {
        false
    } else if a.len() == 0 {
        true
    } else if a[0] != b[0] {
        (a[0] as u32) < (b[0] as u32)
    } else {
        name_less(a.drop_first(), b.drop_first())
    }
}

/// No two names are each before the other.
pub proof fn lemma_name_less_asym(a: Seq<char>, b: Seq<char>)
    ensures
        !(name_less(a, b) && name_less(b, a)),
    decreases a.len(),
{
    if a.len() > 0 && b.len() > 0 && a[0] == b[0] {
        lemma_name_less_asym(a.drop_first(), b.drop_first());
    }
}

/// The first candidate from position `j` on that the oracle calls independent.
pub open spec fn first_independent(
    cands: Seq<Seq<usize>>,
    j: int,
    x: usize,
    y: usize,
    indep: Verdict,
) -> Option<Seq<usize>>
    decreases cands.len() - j,
{
    if j < 0 || j >= cands.len() {
        None
    } else if indep(x, y, cands[j]) {
        Some(cands[j])
    } else {
        first_independent(cands, j + 1, x, y, indep)
    }
}

/// The conditioning sets tried for `(x, y)` at depth `d`: subsets of size `d`
/// of the neighbours of `x` other than `y`.
pub open spec fn candidates(es: EdgeSet, n: nat, d: nat, x: usize, y: usize) -> Seq<Seq<usize>> {
    combos(adjacent_below(es, x, y, n), d)
}

/// The first separating set found for `(x, y)` at depth `d`.
pub open spec fn witness(es: EdgeSet, n: nat, d: nat, indep: Verdict, x: usize, y: usize) -> Option<
    Seq<usize>,
> {
    first_independent(candidates(es, n, d, x, y), 0, x, y, indep)
}

/// `(x, y)` is an adjacent pair visited in canonical (name) order.
pub open spec fn tested(names: Seq<Seq<char>>, es: EdgeSet, x: usize, y: usize) -> bool {
    &&& x < names.len()
    &&& y < names.len()
    &&& x != y
    &&& adjacent(es, x, y)
    &&& name_less(names[x as int], names[y as int])
}

/// The round at depth `d` separates `x` from `y`.
pub open spec fn cut(
    names: Seq<Seq<char>>,
    es: EdgeSet,
    d: nat,
    indep: Verdict,
    x: usize,
    y: usize,
) -> bool {
    tested(names, es, x, y) && witness(es, names.len(), d, indep, x, y) is Some
}

/// The round at depth `d` separates the unordered pair `{u, v}`.
pub open spec fn cut_pair(
    names: Seq<Seq<char>>,
    es: EdgeSet,
    d: nat,
    indep: Verdict,
    u: usize,
    v: usize,
) -> bool {
    cut(names, es, d, indep, u, v) || cut(names, es, d, indep, v, u)
}

/// The edges left after the round at depth `d`: every separated pair loses
/// both directions, all decided on the round's starting graph.
pub open spec fn round_edges(names: Seq<Seq<char>>, es: EdgeSet, d: nat, indep: Verdict) -> EdgeSet {
    es.filter(|e: (usize, usize)| !cut_pair(names, es, d, indep, e.0, e.1))
}

/// The separating sets after the round at depth `d`.
pub open spec fn round_seps(
    names: Seq<Seq<char>>,
    es: EdgeSet,
    seps: SepTable,
    d: nat,
    indep: Verdict,
) -> SepTable {
    Seq::new(
        seps.len(),
        |u: int|
            Seq::new(
                seps[u].len(),
                |v: int|
                    if cut(names, es, d, indep, u as usize, v as usize) {
                        witness(es, names.len(), d, indep, u as usize, v as usize)
                    } else if cut(names, es, d, indep, v as usize, u as usize) {
                        witness(es, names.len(), d, indep, v as usize, u as usize)
                    } else {
                        seps[u][v]
                    },
            ),
    )
}

/// The skeleton search from depth `d` on: rounds run until one removes
/// nothing and `d` exceeds every degree.
pub open spec fn skeleton(
    names: Seq<Seq<char>>,
    es: EdgeSet,
    seps: SepTable,
    d: nat,
    indep: Verdict,
) -> (EdgeSet, SepTable)
    decreases names.len() + 2 - d,
{
    if d > names.len() + 1 {
        (es, seps)
    } else {
        let es2 = round_edges(names, es, d, indep);
        let seps2 = round_seps(names, es, seps, d, indep);
        if es2 == es && d > max_degree_below(es2, names.len(), names.len()) {
            (es2, seps2)
        } else {
            skeleton(names, es2, seps2, d + 1, indep)
        }
    }
}

/// A separating set for `x` and `z` holds `y`.
pub open spec fn sep_holds(seps: SepTable, x: usize, z: usize, y: usize) -> bool {
    match seps[x as int][z as int] {
        Some(s) => s.contains(y),
        None => false,
    }
}

/// Forces `a → b`: drops `b → a` and adds `a → b`.
pub open spec fn orient(es: EdgeSet, a: usize, b: usize) -> EdgeSet {
    es.remove((b, a)).insert((a, b))
}

/// Orienting an adjacent pair changes no adjacency.
pub proof fn lemma_orient_keeps_adjacency(es: EdgeSet, a: usize, b: usize)
    requires
        adjacent(es, a, b),
    ensures
        forall|u: usize, v: usize| #[trigger] adjacent(orient(es, a, b), u, v) == adjacent(es, u, v),
{
}

/// Unshielded triples `(nb[i], y, nb[j])` for one `i` and `i < j < m`.
pub open spec fn row_triples(es: EdgeSet, nb: Seq<usize>, y: usize, i: int, m: int) -> Seq<
    (usize, usize, usize),
>
    decreases m - i,
{
    if m <= i + 1 {
        Seq::empty()
    } else {
        let rest = row_triples(es, nb, y, i, m - 1);
        if !adjacent(es, nb[i], nb[m - 1]) {
            rest.push((nb[i], y, nb[m - 1]))
        } else {
            rest
        }
    }
}

/// Unshielded triples centred on `y` whose first member is `nb[i]`, `i < k`.
pub open spec fn node_triples(es: EdgeSet, nb: Seq<usize>, y: usize, k: nat) -> Seq<
    (usize, usize, usize),
>
    decreases k,
{
    if k == 0 {
        Seq::empty()
    } else {
        node_triples(es, nb, y, (k - 1) as nat) + row_triples(es, nb, y, k - 1, nb.len() as int)
    }
}

/// Unshielded triples centred on the nodes below `k`, in scan order.
pub open spec fn triples_below(es: EdgeSet, n: nat, k: nat) -> Seq<(usize, usize, usize)>
    decreases k,
{
    if k == 0 {
        Seq::empty()
    } else {
        let y = (k - 1) as usize;
        let nb = neighbors(es, n, y);
        triples_below(es, n, (k - 1) as nat) + node_triples(es, nb, y, nb.len())
    }
}

/// The edges after the first `i` triples were examined as colliders.
pub open spec fn orient_triples(es: EdgeSet, seps: SepTable, ts: Seq<(usize, usize, usize)>, i: nat) -> EdgeSet
    decreases i,
{
    if i == 0 {
        es
    } else {
        let prev = orient_triples(es, seps, ts, (i - 1) as nat);
        let t = ts[i - 1];
        if sep_holds(seps, t.0, t.2, t.1) {
            prev
        } else {
            orient(orient(prev, t.0, t.1), t.2, t.1)
        }
    }
}

/// The collider phase on a skeleton.
pub open spec fn colliders(es: EdgeSet, n: nat, seps: SepTable) -> EdgeSet {
    let ts = triples_below(es, n, n);
    orient_triples(es, seps, ts, ts.len())
}

/// The propagation rule applies to `x → y – z` with `x`, `z` not adjacent.
pub open spec fn rule_applies(es: EdgeSet, x: usize, y: usize, z: usize) -> bool {
    directed(es, x, y) && undirected(es, y, z) && !adjacent(es, x, z)
}

/// `(y, x, z)` comes before `(y2, x2, z2)` lexicographically.
pub open spec fn lex_before(a: (usize, usize, usize), b: (usize, usize, usize)) -> bool {
    a.0 < b.0 || (a.0 == b.0 && (a.1 < b.1 || (a.1 == b.1 && a.2 < b.2)))
}

/// `t = (y, x, z)` is the first place, in scan order, where the rule applies.
pub open spec fn is_first_rule(es: EdgeSet, n: nat, t: (usize, usize, usize)) -> bool {
    &&& t.0 < n && t.1 < n && t.2 < n
    &&& rule_applies(es, t.1, t.0, t.2)
    &&& forall|s: (usize, usize, usize)|
        s.0 < n && s.1 < n && s.2 < n && #[trigger] lex_before(s, t) ==> !rule_applies(es, s.1, s.0, s.2)
}

/// There is at most one first place where the rule applies.
pub proof fn lemma_first_rule_unique(es: EdgeSet, n: nat, a: (usize, usize, usize), b: (usize, usize, usize))
    requires
        is_first_rule(es, n, a),
        is_first_rule(es, n, b),
    ensures
        a == b,
{
    if a != b {
        if lex_before(a, b) {
        } else {
            assert(lex_before(b, a));
        }
    }
}

/// One propagation step: orient `y → z` at the first place the rule applies.
pub open spec fn propagate_step(es: EdgeSet, n: nat) -> EdgeSet {
    let t = choose|t: (usize, usize, usize)| is_first_rule(es, n, t);
    orient(es, t.0, t.2)
}

/// The rule applies somewhere among `n` nodes.
pub open spec fn rule_somewhere(es: EdgeSet, n: nat) -> bool {
    exists|t: (usize, usize, usize)| is_first_rule(es, n, t)
}

/// Propagation for at most `fuel` steps, stopping where the rule applies nowhere.
pub open spec fn propagate(es: EdgeSet, n: nat, fuel: nat) -> EdgeSet
    decreases fuel,
{
    if fuel == 0 || !rule_somewhere(es, n) {
        es
    } else {
        propagate(propagate_step(es, n), n, (fuel - 1) as nat)
    }
}

/// The edges `(u, v)` out of `u` with `v < k`, ascending.
pub open spec fn out_edges(es: EdgeSet, u: usize, k: nat) -> Seq<(usize, usize)>
    decreases k,
{
    if k == 0 {
        Seq::empty()
    } else {
        let rest = out_edges(es, u, (k - 1) as nat);
        if es.contains((u, (k - 1) as usize)) {
            rest.push((u, (k - 1) as usize))
        } else {
            rest
        }
    }
}

/// The edges out of the nodes below `k`, in lexicographic order.
pub open spec fn edges_below(es: EdgeSet, n: nat, k: nat) -> Seq<(usize, usize)>
    decreases k,
{
    if k == 0 {
        Seq::empty()
    } else {
        edges_below(es, n, (k - 1) as nat) + out_edges(es, (k - 1) as usize, n)
    }
}

/// The nodes `u < k` with `u → x` directed, ascending.
pub open spec fn directed_parents_below(es: EdgeSet, x: usize, k: nat) -> Seq<usize>
    decreases k,
{
    if k == 0 {
        Seq::empty()
    } else {
        let rest = directed_parents_below(es, x, (k - 1) as nat);
        if directed(es, (k - 1) as usize, x) {
            rest.push((k - 1) as usize)
        } else {
            rest
        }
    }
}

/// The whole search: skeleton, colliders, then propagation to a fixed point.
pub open spec fn pc_search(names: Seq<Seq<char>>, es: EdgeSet, seps: SepTable, indep: Verdict) -> (
    EdgeSet,
    SepTable,
) {
    let sk = skeleton(names, es, seps, 0, indep);
    let col = colliders(sk.0, names.len(), sk.1);
    (propagate(col, names.len(), col.len()), sk.1)
}

} // verus!
