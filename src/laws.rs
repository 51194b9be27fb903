//! Properties of the PC search, proved over its model.
use crate::combinations::lemma_combos_members;
use crate::model::{
    adjacent_below, candidates, cut, deterministic, directed, first_independent, is_first_rule,
    lemma_adjacent_below, neighbors, orient, pc_search, propagate, propagate_step, round_edges,
    rule_somewhere, skeleton, undirected, verdict_of, witness, EdgeSet, SepTable, Verdict,
};
use vstd::prelude::*;

verus! {

/// A round of skeleton learning only removes edges: the edges after it are
/// among those before it, so their number does not grow.
pub proof fn lemma_round_never_adds_edges(names: Seq<Seq<char>>, es: EdgeSet, d: nat, indep: Verdict)
    ensures
        round_edges(names, es, d, indep).subset_of(es),
        es.finite() ==> round_edges(names, es, d, indep).len() <= es.len(),
{
    if es.finite() {
        vstd::set_lib::lemma_len_subset(round_edges(names, es, d, indep), es);
    }
}

/// The whole skeleton search only removes edges.
pub proof fn lemma_skeleton_never_adds_edges(
    names: Seq<Seq<char>>,
    es: EdgeSet,
    seps: SepTable,
    d: nat,
    indep: Verdict,
)
    ensures
        skeleton(names, es, seps, d, indep).0.subset_of(es),
        es.finite() ==> skeleton(names, es, seps, d, indep).0.len() <= es.len(),
    decreases names.len() + 2 - d,
{
    if d <= names.len() + 1 {
        let es2 = round_edges(names, es, d, indep);
        lemma_round_never_adds_edges(names, es, d, indep);
        if !(es2 == es && d > crate::model::max_degree_below(es2, names.len(), names.len())) {
            lemma_skeleton_never_adds_edges(
                names,
                es2,
                crate::model::round_seps(names, es, seps, d, indep),
                d + 1,
                indep,
            );
        }
    }
    let r = skeleton(names, es, seps, d, indep).0;
    if es.finite() {
        vstd::set_lib::lemma_len_subset(r, es);
    }
}

/// The first independent candidate is one of the candidates.
pub proof fn lemma_first_independent_member(
    cands: Seq<Seq<usize>>,
    j: int,
    x: usize,
    y: usize,
    indep: Verdict,
)
    requires
        first_independent(cands, j, x, y, indep) is Some,
    ensures
        exists|i: int|
            0 <= i < cands.len() && cands[i] == first_independent(cands, j, x, y, indep)->0,
    decreases cands.len() - j,
{
    if 0 <= j < cands.len() && !indep(x, y, cands[j]) {
        lemma_first_independent_member(cands, j + 1, x, y, indep);
    }
}

/// When a round at depth `d` separates `x` from `y`, the separating set has
/// exactly `d` members, all of them neighbours of `x` (other than `y`) in the
/// graph the round started from.
pub proof fn lemma_separator_from_neighbors(
    names: Seq<Seq<char>>,
    es: EdgeSet,
    d: nat,
    indep: Verdict,
    x: usize,
    y: usize,
)
    requires
        cut(names, es, d, indep, x, y),
    ensures
        witness(es, names.len(), d, indep, x, y)->0.len() == d,
        forall|k: int|
            0 <= k < d ==> neighbors(es, names.len(), x).contains(
                #[trigger] witness(es, names.len(), d, indep, x, y)->0[k],
            ) && witness(es, names.len(), d, indep, x, y)->0[k] != y,
{
    let n = names.len();
    let pool = adjacent_below(es, x, y, n);
    let cands = candidates(es, n, d, x, y);
    let z = witness(es, n, d, indep, x, y)->0;
    lemma_first_independent_member(cands, 0, x, y, indep);
    let i = choose|i: int| 0 <= i < cands.len() && cands[i] == z;
    lemma_combos_members(pool, d, i);
    lemma_adjacent_below(es, x, y, n);
    lemma_adjacent_below(es, x, x, n);
    assert forall|k: int| 0 <= k < d implies neighbors(es, n, x).contains(#[trigger] z[k]) && z[k] != y by {
        assert(pool.contains(z[k]));
    }
}

/// Propagation never reverses or removes a directed edge: an edge `u → v`
/// that is directed before stays directed the same way.
pub proof fn lemma_propagation_keeps_directed(es: EdgeSet, n: nat, fuel: nat, u: usize, v: usize)
    requires
        directed(es, u, v),
    ensures
        directed(propagate(es, n, fuel), u, v),
    decreases fuel,
{
    if fuel > 0 && rule_somewhere(es, n) {
        let t = choose|t: (usize, usize, usize)| is_first_rule(es, n, t);
        assert(undirected(es, t.0, t.2));
        assert(propagate_step(es, n) == orient(es, t.0, t.2));
        assert(directed(propagate_step(es, n), u, v));
        lemma_propagation_keeps_directed(propagate_step(es, n), n, (fuel - 1) as nat, u, v);
    }
}

/// The search is a function of its start and of the oracle's verdicts: two
/// runs from the same graph and separating sets with the same deterministic
/// oracle end with the same graph and separating sets.
pub proof fn lemma_run_repeatable<F: Fn(usize, usize, &Vec<usize>) -> bool>(
    f: F,
    names: Seq<Seq<char>>,
    es: EdgeSet,
    seps: SepTable,
    first: (EdgeSet, SepTable),
    second: (EdgeSet, SepTable),
)
    requires
        deterministic(f),
        first == pc_search(names, es, seps, verdict_of(f)),
        second == pc_search(names, es, seps, verdict_of(f)),
    ensures
        first == second,
{
}

} // verus!
